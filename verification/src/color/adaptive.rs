//! The distinct colors of an image, from which an adaptive palette is built.

use vstd::prelude::*;
use std::collections::HashMap;
use crate::image::RgbaBuffer;
use crate::painting::{color_key, color_key_exec, lemma_color_key_injective};

verus! {

/// The color of pixel `t` of RGBA bytes.
pub open spec fn pixel_rgb(data: Seq<u8>, t: int) -> (u8, u8, u8) {
    (data[4 * t], data[4 * t + 1], data[4 * t + 2])
}

/// Pixel `t` is opaque enough to count: alpha at least 128.
pub open spec fn is_opaque(data: Seq<u8>, t: int) -> bool {
    data[4 * t + 3] >= 128
}

/// The number of opaque pixels of color `c` among the first `k`.
pub open spec fn opaque_count(data: Seq<u8>, c: (u8, u8, u8), k: int) -> nat
    decreases k,
{
    if k <= 0 {
        0
    } else {
        opaque_count(data, c, k - 1) + if is_opaque(data, k - 1) && pixel_rgb(data, k - 1) == c {
            1nat
        } else {
            0nat
        }
    }
}

proof fn lemma_opaque_count_bound(data: Seq<u8>, c: (u8, u8, u8), k: int)
    requires
        k >= 0,
    ensures
        opaque_count(data, c, k) <= k,
    decreases k,
{
    if k > 0 {
        lemma_opaque_count_bound(data, c, k - 1);
    }
}

/// The distinct colors of the opaque pixels (alpha at least 128), each with the
/// number of opaque pixels that have it. Each color comes once.
pub fn opaque_colors(img: &RgbaBuffer) -> (colors: Vec<((u8, u8, u8), usize)>)
    requires
        img.wf(),
    ensures
        forall|a: int, b: int| 0 <= a < b < colors@.len() ==> (#[trigger] colors@[a]).0 != (#[trigger] colors@[b]).0,
        forall|a: int|
            0 <= a < colors@.len() ==> (#[trigger] colors@[a]).1 == opaque_count(
                img.data@,
                colors@[a].0,
                (img.data@.len() / 4) as int,
            ) && colors@[a].1 > 0,
        forall|t: int|
            0 <= t < img.data@.len() / 4 && is_opaque(img.data@, t) ==> exists|a: int|
                0 <= a < colors@.len() && (#[trigger] colors@[a]).0 == pixel_rgb(img.data@, t),
{
    broadcast use vstd::std_specs::hash::group_hash_axioms;

    let data = &img.data;
    let len = data.len();
    let n = len / 4;
    let mut colors: Vec<((u8, u8, u8), usize)> = Vec::new();
    let mut index: HashMap<u32, usize> = HashMap::new();
    let mut t: usize = 0;
    while t < n
        invariant
            0 <= t <= n,
            n == data@.len() / 4,
            len == data@.len(),
            data@ == img.data@,
            forall|a: int, b: int| 0 <= a < b < colors@.len() ==> (#[trigger] colors@[a]).0 != (#[trigger] colors@[b]).0,
            forall|a: int|
                0 <= a < colors@.len() ==> (#[trigger] colors@[a]).1 == opaque_count(data@, colors@[a].0, t as int)
                    && colors@[a].1 > 0,
            forall|u: int|
                0 <= u < t && is_opaque(data@, u) ==> exists|a: int|
                    0 <= a < colors@.len() && (#[trigger] colors@[a]).0 == pixel_rgb(data@, u),
            forall|a: int|
                0 <= a < colors@.len() ==> index@.contains_key(color_key((#[trigger] colors@[a]).0))
                    && index@[color_key(colors@[a].0)] == a,
            forall|k: u32| #[trigger] index@.contains_key(k) ==> index@[k] < colors@.len() && color_key(colors@[index@[k] as int].0) == k,
        decreases n - t,
    {
        assert(4 * t + 3 < len) by (nonlinear_arith)
            requires
                t < n,
                n == len / 4,
        ;
        let base = 4 * t;
        let r = data[base];
        let g = data[base + 1];
        let b = data[base + 2];
        let alpha = data[base + 3];
        let ghost before = colors@;
        if alpha >= 128 {
            let key = color_key_exec(r, g, b);
            match index.get(&key) {
                Some(a) => {
                    let a = *a;
                    let cnt = colors[a].1;
                    proof {
                        lemma_color_key_injective(colors@[a as int].0, (r, g, b));
                        lemma_opaque_count_bound(data@, (r, g, b), t as int);
                    }
                    colors.set(a, ((r, g, b), cnt + 1));
                    proof {
                        assert forall|c: int| 0 <= c < colors@.len() implies (#[trigger] colors@[c]).1 == opaque_count(
                            data@,
                            colors@[c].0,
                            t + 1,
                        ) && colors@[c].1 > 0 by {
                            if c != a {
                                assert(colors@[c] == before[c]);
                                assert(before[c].0 != (r, g, b));
                            }
                        }
                        assert forall|u: int| 0 <= u < t + 1 && is_opaque(data@, u) implies exists|c: int|
                            0 <= c < colors@.len() && (#[trigger] colors@[c]).0 == pixel_rgb(data@, u) by {
                            if u < t {
                                let c = choose|c: int| 0 <= c < before.len() && (#[trigger] before[c]).0 == pixel_rgb(data@, u);
                                assert(colors@[c].0 == before[c].0);
                            } else {
                                assert(colors@[a as int].0 == pixel_rgb(data@, u));
                            }
                        }
                        assert forall|x: int, y: int| 0 <= x < y < colors@.len() implies (#[trigger] colors@[x]).0 != (
                            #[trigger] colors@[y]).0 by {
                            assert(colors@[x].0 == before[x].0);
                            assert(colors@[y].0 == before[y].0);
                        }
                        assert forall|c: int| 0 <= c < colors@.len() implies index@.contains_key(
                            color_key((#[trigger] colors@[c]).0),
                        ) && index@[color_key(colors@[c].0)] == c by {
                            assert(colors@[c].0 == before[c].0);
                        }
                        assert forall|k: u32| #[trigger] index@.contains_key(k) implies index@[k] < colors@.len()
                            && color_key(colors@[index@[k] as int].0) == k by {
                            assert(colors@[index@[k] as int].0 == before[index@[k] as int].0);
                        }
                    }
                },
                None => {
                    proof {
                        assert forall|c: int| 0 <= c < colors@.len() implies (#[trigger] colors@[c]).0 != (r, g, b) by {
                            if colors@[c].0 == (r, g, b) {
                                assert(index@.contains_key(key));
                            }
                        }
                    }
                    let a = colors.len();
                    colors.push(((r, g, b), 1));
                    let ghost old_index = index@;
                    index.insert(key, a);
                    proof {
                        assert forall|c: int| 0 <= c < colors@.len() implies (#[trigger] colors@[c]).1 == opaque_count(
                            data@,
                            colors@[c].0,
                            t + 1,
                        ) && colors@[c].1 > 0 by {
                            if c < a {
                                assert(colors@[c] == before[c]);
                            } else {
                                assert(opaque_count(data@, (r, g, b), t as int) == 0) by {
                                    lemma_no_earlier_opaque(data@, (r, g, b), t as int, before);
                                }
                            }
                        }
                        assert forall|u: int| 0 <= u < t + 1 && is_opaque(data@, u) implies exists|c: int|
                            0 <= c < colors@.len() && (#[trigger] colors@[c]).0 == pixel_rgb(data@, u) by {
                            if u < t {
                                let c = choose|c: int| 0 <= c < before.len() && (#[trigger] before[c]).0 == pixel_rgb(data@, u);
                                assert(colors@[c].0 == before[c].0);
                            } else {
                                assert(colors@[a as int].0 == pixel_rgb(data@, u));
                            }
                        }
                        assert forall|x: int, y: int| 0 <= x < y < colors@.len() implies (#[trigger] colors@[x]).0 != (
                            #[trigger] colors@[y]).0 by {
                            assert(colors@[x].0 == before[x].0);
                            if y < a {
                                assert(colors@[y].0 == before[y].0);
                            }
                        }
                        assert forall|c: int| 0 <= c < colors@.len() implies index@.contains_key(
                            color_key((#[trigger] colors@[c]).0),
                        ) && index@[color_key(colors@[c].0)] == c by {
                            if c < a {
                                assert(colors@[c].0 == before[c].0);
                                if color_key(before[c].0) == key {
                                    lemma_color_key_injective(before[c].0, (r, g, b));
                                }
                            }
                        }
                        assert forall|k: u32| #[trigger] index@.contains_key(k) implies index@[k] < colors@.len()
                            && color_key(colors@[index@[k] as int].0) == k by {
                            if k != key {
                                assert(old_index.contains_key(k));
                                assert(colors@[index@[k] as int].0 == before[index@[k] as int].0);
                            }
                        }
                    }
                },
            }
        } else {
            proof {
                assert forall|c: int| 0 <= c < colors@.len() implies (#[trigger] colors@[c]).1 == opaque_count(
                    data@,
                    colors@[c].0,
                    t + 1,
                ) && colors@[c].1 > 0 by {}
            }
        }
        t += 1;
    }
    colors
}

proof fn lemma_no_earlier_opaque(data: Seq<u8>, c: (u8, u8, u8), t: int, colors: Seq<((u8, u8, u8), usize)>)
    requires
        0 <= t,
        forall|u: int|
            0 <= u < t && is_opaque(data, u) ==> exists|a: int|
                0 <= a < colors.len() && (#[trigger] colors[a]).0 == pixel_rgb(data, u),
        forall|a: int| 0 <= a < colors.len() ==> (#[trigger] colors[a]).0 != c,
    ensures
        opaque_count(data, c, t) == 0,
    decreases t,
{
    if t > 0 {
        lemma_no_earlier_opaque(data, c, t - 1, colors);
        if is_opaque(data, t - 1) && pixel_rgb(data, t - 1) == c {
            let a = choose|a: int| 0 <= a < colors.len() && (#[trigger] colors[a]).0 == pixel_rgb(data, t - 1);
        }
    }
}

} // verus!
