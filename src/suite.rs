//! Which conformance cases a test runner of this engine skips: predicates
//! over case names.
use vstd::prelude::*;
use vstd::string::StrSliceExecFns;

verus! {

/// `w` occurs in `h` at position `i`.
pub open spec fn occurs_at(h: Seq<char>, w: Seq<char>, i: int) -> bool {
    0 <= i && i + w.len() <= h.len() && h.subrange(i, i + w.len()) == w
}

/// `w` occurs somewhere in `h`.
pub open spec fn occurs(h: Seq<char>, w: Seq<char>) -> bool {
    exists|i: int| occurs_at(h, w, i)
}

/// Whether `w` occurs in `h` at `i`.
fn str_occurs_at(h: &str, w: &str, i: usize) -> (r: bool)
    ensures
        r == occurs_at(h@, w@, i as int),
{
    let hl = h.unicode_len();
    let wl = w.unicode_len();
    if i > hl || wl > hl - i {
        return false;
    }
    let mut j: usize = 0;
    while j < wl
        invariant
            hl == h@.len(),
            wl == w@.len(),
            i + wl <= hl,
            j <= wl,
            forall|q: int| 0 <= q < j ==> h@[i + q] == w@[q],
        decreases wl - j,
    {
        if h.get_char(i + j) != w.get_char(j) {
            proof {
                assert(h@.subrange(i as int, i + wl)[j as int] != w@[j as int]);
            }
            return false;
        }
        j = j + 1;
    }
    assert(h@.subrange(i as int, i + wl) =~= w@);
    true
}

/// Whether `w` occurs in `h`.
pub fn str_contains(h: &str, w: &str) -> (r: bool)
    ensures
        r == occurs(h@, w@),
{
    let hl = h.unicode_len();
    let mut i: usize = 0;
    while i <= hl
        invariant
            hl == h@.len(),
            forall|q: int| 0 <= q < i ==> !occurs_at(h@, w@, q),
        decreases hl + 1 - i,
    {
        if str_occurs_at(h, w, i) {
            return true;
        }
        if i == hl {
            assert forall|q: int| !occurs_at(h@, w@, q) by {
                if 0 <= q && q > hl as int {
                    assert(!(q + w@.len() <= h@.len()));
                }
            }
            return false;
        }
        i = i + 1;
    }
    false
}

/// Whether `a` and `b` hold the same characters.
pub fn str_eq(a: &str, b: &str) -> (r: bool)
    ensures
        r == (a@ == b@),
{
    if a.unicode_len() != b.unicode_len() {
        return false;
    }
    let r = str_occurs_at(a, b, 0);
    proof {
        assert(a@ =~= a@.subrange(0, b@.len() as int));
    }
    r
}

/// Whether `a` starts with `p`.
pub fn str_starts_with(a: &str, p: &str) -> (r: bool)
    ensures
        r == occurs_at(a@, p@, 0),
{
    str_occurs_at(a, p, 0)
}

/// Name fragments that select the ONNX cases to run.
pub open spec fn onnx_included() -> Seq<Seq<char>> {
    seq![
        "_conv_"@,
        "Conv1d"@,
        "Conv2d"@,
        "squeeze"@,
        "_transpose_"@,
        "test_reshape"@,
        "test_flatten"@,
    ]
}

/// Selected ONNX cases that are skipped all the same.
pub open spec fn onnx_excluded() -> Seq<Seq<char>> {
    seq![
        "test_Conv1d_groups"@,
        "test_Conv2d_groups"@,
        "test_Conv1d_depthwise_with_multiplier"@,
        "test_Conv2d_depthwise_with_multiplier"@,
        "test_Conv2d_groups_thnn"@,
        "test_reshape_allowzero_reordered"@,
    ]
}

/// Skips an ONNX case, named by its path, unless its last name holds one
/// of the selected fragments and is not one of the excluded names.
pub fn ignore_onnx(t: &[String]) -> (r: bool)
    requires
        t@.len() > 0,
    ensures
        r == (!(exists|i: int| 0 <= i < onnx_included().len() && occurs(t@.last()@, onnx_included()[i]))
            || exists|i: int| 0 <= i < onnx_excluded().len() && t@.last()@ == onnx_excluded()[i]),
{
    let name = t[t.len() - 1].as_str();
    let included: Vec<&str> = vec![
        "_conv_",
        "Conv1d",
        "Conv2d",
        "squeeze",
        "_transpose_",
        "test_reshape",
        "test_flatten",
    ];
    let excluded: Vec<&str> = vec![
        "test_Conv1d_groups",
        "test_Conv2d_groups",
        "test_Conv1d_depthwise_with_multiplier",
        "test_Conv2d_depthwise_with_multiplier",
        "test_Conv2d_groups_thnn",
        "test_reshape_allowzero_reordered",
    ];
    assert(included@.len() == onnx_included().len());
    assert(excluded@.len() == onnx_excluded().len());
    assert(forall|i: int| 0 <= i < included@.len() ==> #[trigger] included@[i]@ == onnx_included()[i]);
    assert(forall|i: int| 0 <= i < excluded@.len() ==> #[trigger] excluded@[i]@ == onnx_excluded()[i]);
    let mut any_included = false;
    let mut i: usize = 0;
    while i < included.len()
        invariant
            name@ == t@.last()@,
            included@.len() == onnx_included().len(),
            forall|q: int| 0 <= q < included@.len() ==> #[trigger] included@[q]@ == onnx_included()[q],
            i <= included@.len(),
            any_included == exists|q: int| 0 <= q < i && occurs(name@, onnx_included()[q]),
        decreases included@.len() - i,
    {
        if str_contains(name, included[i]) {
            any_included = true;
        }
        i = i + 1;
    }
    let mut any_excluded = false;
    let mut i: usize = 0;
    while i < excluded.len()
        invariant
            name@ == t@.last()@,
            excluded@.len() == onnx_excluded().len(),
            forall|q: int| 0 <= q < excluded@.len() ==> #[trigger] excluded@[q]@ == onnx_excluded()[q],
            i <= excluded@.len(),
            any_excluded == exists|q: int| 0 <= q < i && name@ == onnx_excluded()[q],
        decreases excluded@.len() - i,
    {
        if str_eq(name, excluded[i]) {
            any_excluded = true;
        }
        i = i + 1;
    }
    !any_included || any_excluded
}

/// Convolution units that are skipped whatever their section.
pub open spec fn conv_skipped_units() -> Seq<Seq<char>> {
    seq!["proptest"@, "lazy_im2col_big"@, "lazy_im2col_big_2"@, "batch_3d"@, "bias_3d_1"@]
}

/// Skips a convolution case named `[section, unit]`: the quantized and
/// transposed sections, grouped and depthwise units, and a few 3D or
/// generated units. Names of any other length are kept.
pub fn ignore_conv(t: &[String]) -> (r: bool)
    ensures
        r == (t@.len() == 2 && ({
            let section = t@[0]@;
            let unit = t@[1]@;
            section == "q"@ || section == "deconv"@ || occurs_at(unit, "group"@, 0)
                || exists|i: int| 0 <= i < conv_skipped_units().len() && unit == conv_skipped_units()[i]
        })),
{
    if t.len() != 2 {
        return false;
    }
    let section = t[0].as_str();
    let unit = t[1].as_str();
    let units: Vec<&str> = vec!["proptest", "lazy_im2col_big", "lazy_im2col_big_2", "batch_3d", "bias_3d_1"];
    assert(units@.len() == conv_skipped_units().len());
    assert(forall|i: int| 0 <= i < units@.len() ==> #[trigger] units@[i]@ == conv_skipped_units()[i]);
    let mut hit = str_eq(section, "q") || str_eq(section, "deconv") || str_starts_with(unit, "group");
    let mut i: usize = 0;
    while i < units.len()
        invariant
            unit@ == t@[1]@,
            units@.len() == conv_skipped_units().len(),
            forall|q: int| 0 <= q < units@.len() ==> #[trigger] units@[q]@ == conv_skipped_units()[q],
            i <= units@.len(),
            hit == ((t@[0]@ == "q"@ || t@[0]@ == "deconv"@ || occurs_at(unit@, "group"@, 0))
                || exists|q: int| 0 <= q < i && unit@ == conv_skipped_units()[q]),
        decreases units@.len() - i,
    {
        if str_eq(unit, units[i]) {
            hit = true;
        }
        i = i + 1;
    }
    hit
}

} // verus!
