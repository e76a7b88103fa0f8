# LiDAR point cloud classifier

Classifies airborne LiDAR scans with a PointNet segmentation network. A scan is
cut into square blocks, each point gets a vector of 17 features, the network
scores the points of each block, and neighbouring blocks vote on the points
near their seams.

## Layout

- `src/` is the library, verified with Verus: file formats, block partitioning
  and sampling, dataset splitting, label maps, model files, prediction fusion,
  metrics and command lines, each function with its contract.
- `tests/` runs the library on concrete values.
- `app/` is the programs around it, `wb_lidar_classify` and `wb_lidar_train`:
  files, point-cloud readers and writers, rasters, threads, and floating-point
  arithmetic. One executable serves as both, by the name it is called by.

Floating-point numbers enter the library as their IEEE 754 bit patterns
(`ieee.rs`), which it compares, halves, triples, stores and copies. Other
arithmetic on them is done by the programs and reaches the library through
closures.

## Trust

Verus takes on trust only the items marked `external_body`: the random
generator of `rand` in `preprocessing/normalizer.rs` and `serde_json` in
`json.rs`; and the contract of `String::push` in `text.rs`. Each says in its
comment what it claims of the outside function.

The programs call `wbcore` and `wbtools_oss` for outlier removal, eigenvalue
features and ground models. These crates are not published on crates.io and
have to be supplied for the programs to build.
