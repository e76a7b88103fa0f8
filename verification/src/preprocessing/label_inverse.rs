//! Label maps read backwards: from model class index to ASPRS code.

use vstd::prelude::*;

use crate::error::{pipeline_text, ClassifierError};
use crate::text::{concat2, decimal, decimal_text};
use crate::text_map::TextMap;

verus! {

/// The class that a map, keyed by decimal ASPRS codes, has for a code.
pub open spec fn class_of(map: Map<Seq<char>, u8>, code: int) -> Option<u8> {
    if map.dom().contains(decimal(code as nat)) {
        Some(map[decimal(code as nat)])
    } else {
        None
    }
}

/// The smallest code from `from` on that has this class.
pub open spec fn first_code(map: Map<Seq<char>, u8>, class: int, from: int) -> Option<int>
    decreases 256 - from,
{
    if from >= 256 {
        None
    } else if class_of(map, from) matches Some(c) && c == class {
        Some(from)
    } else {
        first_code(map, class, from + 1)
    }
}

fn find_code(map: &TextMap<u8>, class: usize) -> (r: Option<u8>)
    ensures
        match r {
            Some(c) => first_code(map@, class as int, 0) == Some(c as int),
            None => first_code(map@, class as int, 0) is None,
        },
{
    let mut code: u64 = 0;
    while code < 256
        invariant
            code <= 256,
            first_code(map@, class as int, 0) == first_code(map@, class as int, code as int),
        decreases 256 - code,
    {
        let text = decimal_text(code);
        if let Some(c) = map.get(text.as_str()) {
            if c as usize == class {
                return Some(code as u8);
            }
        }
        code = code + 1;
    }
    None
}

/// The first of the classes from `from` on that no code has.
pub open spec fn first_gap(map: Map<Seq<char>, u8>, from: int, n: int) -> Option<int>
    decreases n - from,
{
    if from >= n {
        None
    } else if first_code(map, from, 0) is None {
        Some(from)
    } else {
        first_gap(map, from + 1, n)
    }
}

pub open spec fn gap_message(class: nat) -> Seq<char> {
    "label map has no ASPRS code for model class index "@ + decimal(class)
}

/// The ASPRS code of each of the first `n_classes` classes: the smallest one
/// that the map sends to it.
pub fn inverse_label_map(map: &TextMap<u8>, n_classes: usize) -> (r: Result<
    Vec<u8>,
    ClassifierError,
>)
    ensures
        match first_gap(map@, 0, n_classes as int) {
            Some(class) => r matches Err(e) && e.text() == pipeline_text(
                gap_message(class as nat),
            ),
            None => r matches Ok(codes) && codes@.len() == n_classes && forall|i: int|
                0 <= i < n_classes ==> first_code(map@, i, 0) == Some(
                    (#[trigger] codes@[i]) as int,
                ),
        },
{
    let mut out: Vec<u8> = Vec::new();
    let mut i: usize = 0;
    while i < n_classes
        invariant
            i <= n_classes,
            out@.len() == i,
            first_gap(map@, 0, n_classes as int) == first_gap(map@, i as int, n_classes as int),
            forall|k: int|
                0 <= k < i ==> first_code(map@, k, 0) == Some((#[trigger] out@[k]) as int),
        decreases n_classes - i,
    {
        match find_code(map, i) {
            Some(c) => {
                out.push(c);
            },
            None => {
                let n = decimal_text(i as u64);
                return Err(
                    ClassifierError::Pipeline(
                        concat2("label map has no ASPRS code for model class index ", n.as_str()),
                    ),
                );
            },
        }
        i = i + 1;
    }
    Ok(out)
}

/// A class that is read backwards reads forwards again.
pub proof fn law_inverse_reads_forward(map: Map<Seq<char>, u8>, class: int)
    requires
        first_code(map, class, 0) is Some,
    ensures
        class_of(map, first_code(map, class, 0)->0) matches Some(c) && c == class,
{
    lemma_first_code(map, class, 0);
}

proof fn lemma_first_code(map: Map<Seq<char>, u8>, class: int, from: int)
    requires
        first_code(map, class, from) is Some,
    ensures
        class_of(map, first_code(map, class, from)->0) matches Some(c) && c == class,
    decreases 256 - from,
{
    if !(class_of(map, from) matches Some(c) && c == class) {
        lemma_first_code(map, class, from + 1);
    }
}

/// The code of a class is the smallest one that the map gives the class.
pub proof fn law_inverse_is_the_smallest_code(map: Map<Seq<char>, u8>, class: int, from: int)
    requires
        0 <= from <= 256,
    ensures
        match first_code(map, class, from) {
            Some(code) => from <= code < 256 && map.dom().contains(decimal(code as nat))
                && map[decimal(code as nat)] == class && forall|k: int|
                from <= k < code && map.dom().contains(#[trigger] decimal(k as nat))
                    ==> map[decimal(k as nat)] != class,
            None => forall|k: int|
                from <= k < 256 && map.dom().contains(#[trigger] decimal(k as nat))
                    ==> map[decimal(k as nat)] != class,
        },
    decreases 256 - from,
{
    if from < 256 && !(class_of(map, from) matches Some(c) && c == class) {
        law_inverse_is_the_smallest_code(map, class, from + 1);
    }
}

/// The gap that is named is the smallest class without a code.
pub proof fn law_gap_is_the_smallest(map: Map<Seq<char>, u8>, from: int, n: int)
    requires
        0 <= from,
    ensures
        match first_gap(map, from, n) {
            Some(class) => from <= class < n && first_code(map, class, 0) is None && forall|k: int|
                from <= k < class ==> #[trigger] first_code(map, k, 0) is Some,
            None => forall|k: int| from <= k < n ==> #[trigger] first_code(map, k, 0) is Some,
        },
    decreases n - from,
{
    if from < n && first_code(map, from, 0) is Some {
        law_gap_is_the_smallest(map, from + 1, n);
    }
}

} // verus!
