//! The process list: names from the OS's wide-character buffers, the list
//! ordered by case-folded name, and the filter the selection box applies.

use vstd::prelude::*;

use crate::format::{dec_digit_chars, dec_digits};
use crate::text::{all_ascii, ascii_lower, chars_of};
use crate::types::ProcessInfo;

verus! {

/// The characters `str::to_lowercase` maps `s` to.
pub uninterp spec fn lowercase_text(s: Seq<char>) -> Seq<char>;

/// The characters UTF-16 decoding gives for `units`, each ill-formed unit
/// replaced by U+FFFD: a unit outside the surrogates is the character of
/// that code point; a high surrogate followed by a low one is the
/// character the pair encodes; any other surrogate is U+FFFD.
pub open spec fn utf16_lossy(units: Seq<u16>) -> Seq<char>
    decreases units.len(),
{
    if units.len() == 0 {
        Seq::<char>::empty()
    } else {
        let u = units[0];
        if u < 0xD800 || u > 0xDFFF {
            seq![u as char] + utf16_lossy(units.drop_first())
        } else if u <= 0xDBFF && units.len() > 1 && 0xDC00 <= units[1] && units[1] <= 0xDFFF {
            seq![(0x10000 + (u - 0xD800) * 0x400 + (units[1] - 0xDC00)) as char] + utf16_lossy(
                units.skip(2),
            )
        } else {
            seq!['\u{FFFD}'] + utf16_lossy(units.drop_first())
        }
    }
}

/// std's `String::from_utf16_lossy`; claimed: the result's characters are
/// `utf16_lossy(units)`, the UTF-16 decoding of the units with U+FFFD for
/// each unpaired surrogate, as std documents it.
#[verifier::external_body]
fn decode_utf16_lossy(units: &[u16]) -> (r: String)
    ensures
        r@ == utf16_lossy(units@),
{
    String::from_utf16_lossy(units)
}

/// std's `str::to_lowercase`; claimed: the result's characters are
/// `lowercase_text(s@)`, a function of `s` alone, and for an all-ASCII
/// string they are its characters with ASCII letters lower-cased (std
/// converts the ASCII run with `to_ascii_lowercase`).
#[verifier::external_body]
fn to_lowercase(s: &str) -> (r: String)
    ensures
        r@ == lowercase_text(s@),
        all_ascii(s@) ==> r@ == s@.map_values(|c: char| ascii_lower(c)),
{
    s.to_lowercase()
}

/// `str::to_lowercase`: for an all-ASCII string, its ASCII letters
/// lower-cased; otherwise as Unicode's tables say.
pub open spec fn lowercase(s: Seq<char>) -> Seq<char> {
    if all_ascii(s) {
        s.map_values(|c: char| ascii_lower(c))
    } else {
        lowercase_text(s)
    }
}

/// The units of a NUL-terminated buffer up to its first NUL (all of them
/// when there is none).
pub open spec fn until_nul(units: Seq<u16>) -> Seq<u16>
    decreases units.len(),
{
    if units.len() == 0 || units[0] == 0 {
        Seq::<u16>::empty()
    } else {
        seq![units[0]] + until_nul(units.drop_first())
    }
}

/// The name held in a NUL-terminated wide-character buffer, decoded with
/// invalid UTF-16 replaced by U+FFFD.
pub fn name_from_wide(buffer: &[u16]) -> (r: String)
    ensures
        r@ == utf16_lossy(until_nul(buffer@)),
{
    let mut n: usize = 0;
    assert(buffer@.skip(0) =~= buffer@);
    assert(buffer@.take(0) =~= Seq::<u16>::empty());
    assert(buffer@.take(0) + until_nul(buffer@.skip(0)) =~= until_nul(buffer@));
    while n < buffer.len() && buffer[n] != 0
        invariant
            n <= buffer.len(),
            until_nul(buffer@) == buffer@.take(n as int) + until_nul(buffer@.skip(n as int)),
        decreases buffer.len() - n,
    {
        assert(buffer@.skip(n as int).drop_first() =~= buffer@.skip(n + 1));
        assert(buffer@.take(n + 1) =~= buffer@.take(n as int) + seq![buffer@[n as int]]);
        n = n + 1;
    }
    proof {
        if n < buffer.len() {
            assert(until_nul(buffer@.skip(n as int)) == Seq::<u16>::empty());
        } else {
            assert(buffer@.skip(n as int) =~= Seq::<u16>::empty());
        }
        assert(until_nul(buffer@) =~= buffer@.take(n as int));
    }
    let mut units: Vec<u16> = Vec::new();
    let mut i: usize = 0;
    while i < n
        invariant
            i <= n <= buffer.len(),
            units@ == buffer@.take(i as int),
        decreases n - i,
    {
        units.push(buffer[i]);
        assert(buffer@.take(i + 1) =~= buffer@.take(i as int).push(buffer@[i as int]));
        i = i + 1;
    }
    decode_utf16_lossy(units.as_slice())
}

/// `a` comes before `b` in the order of `String`'s `cmp`: character by
/// character by code point (the order of UTF-8 bytes), a proper prefix
/// first.
pub open spec fn text_before(a: Seq<char>, b: Seq<char>) -> bool
    decreases a.len(),
{
    if a.len() == 0 {
        b.len() > 0
    } else if b.len() == 0 {
        false
    } else if a[0] != b[0] {
        a[0] < b[0]
    } else {
        text_before(a.drop_first(), b.drop_first())
    }
}

/// No name comes before itself.
pub proof fn lemma_text_before_irreflexive(a: Seq<char>)
    ensures
        !text_before(a, a),
    decreases a.len(),
{
    if a.len() > 0 {
        lemma_text_before_irreflexive(a.drop_first());
    }
}

/// Of two different names, one comes before the other.
pub proof fn lemma_text_before_total(a: Seq<char>, b: Seq<char>)
    ensures
        text_before(a, b) || text_before(b, a) || a == b,
    decreases a.len(),
{
    if a.len() > 0 && b.len() > 0 && a[0] == b[0] {
        lemma_text_before_total(a.drop_first(), b.drop_first());
        if a.drop_first() == b.drop_first() {
            assert forall|k: int| 0 <= k < a.len() implies a[k] == b[k] by {
                if k > 0 {
                    assert(a[k] == a.drop_first()[k - 1]);
                    assert(b[k] == b.drop_first()[k - 1]);
                }
            }
            assert(a =~= b);
        }
    } else if a.len() == 0 && b.len() == 0 {
        assert(a =~= b);
    }
}

/// The order of names is transitive.
pub proof fn lemma_text_before_transitive(a: Seq<char>, b: Seq<char>, c: Seq<char>)
    requires
        text_before(a, b),
        text_before(b, c),
    ensures
        text_before(a, c),
    decreases a.len(),
{
    if a.len() > 0 && b.len() > 0 && c.len() > 0 && a[0] == b[0] && b[0] == c[0] {
        lemma_text_before_transitive(a.drop_first(), b.drop_first(), c.drop_first());
    }
}

/// Two names never come before each other.
pub proof fn lemma_text_before_asymmetric(a: Seq<char>, b: Seq<char>)
    requires
        text_before(a, b),
    ensures
        !text_before(b, a),
{
    if text_before(b, a) {
        lemma_text_before_transitive(a, b, a);
        lemma_text_before_irreflexive(a);
    }
}

/// Whether `a` comes before `b` in `String` order.
pub fn chars_before(a: &[char], b: &[char]) -> (r: bool)
    ensures
        r == text_before(a@, b@),
{
    let mut i: usize = 0;
    assert(a@.skip(0) =~= a@);
    assert(b@.skip(0) =~= b@);
    while i < a.len() && i < b.len() && a[i] == b[i]
        invariant
            i <= a.len(),
            i <= b.len(),
            text_before(a@, b@) == text_before(a@.skip(i as int), b@.skip(i as int)),
        decreases a.len() - i,
    {
        assert(a@.skip(i as int).drop_first() =~= a@.skip(i + 1));
        assert(b@.skip(i as int).drop_first() =~= b@.skip(i + 1));
        i = i + 1;
    }
    if i == a.len() {
        i < b.len()
    } else if i == b.len() {
        false
    } else {
        a[i] < b[i]
    }
}

/// The key the process list is ordered by: the lower-cased name.
pub open spec fn sort_key(p: ProcessInfo) -> Seq<char> {
    lowercase(p.name@)
}

/// Element `x` (first at index `i` of the input) comes before element `y`
/// (first at index `j`) in a stable order by `sort_key`.
pub open spec fn ordered_pair(x: ProcessInfo, i: int, y: ProcessInfo, j: int) -> bool {
    text_before(sort_key(x), sort_key(y)) || (sort_key(x) == sort_key(y) && i < j)
}

/// `out` is `input` rearranged by `perm` (`out[k]` is `input[perm[k]]`, no
/// input index used twice) and in stable order by `sort_key`.
pub open spec fn stably_sorted_by(out: Seq<ProcessInfo>, input: Seq<ProcessInfo>, perm: Seq<int>) -> bool {
    &&& out.len() == input.len()
    &&& perm.len() == input.len()
    &&& forall|k: int| 0 <= k < perm.len() ==> 0 <= #[trigger] perm[k] < input.len()
    &&& forall|k: int, l: int| 0 <= k < l < perm.len() ==> perm[k] != perm[l]
    &&& forall|k: int| 0 <= k < out.len() ==> #[trigger] out[k] == input[perm[k]]
    &&& forall|k: int, l: int|
        0 <= k < l < out.len() ==> ordered_pair(#[trigger] out[k], perm[k], #[trigger] out[l], perm[l])
}

/// Orders the process list by lower-cased name, keeping the listed order
/// among equal names.
pub fn sort_processes(processes: Vec<ProcessInfo>) -> (r: Vec<ProcessInfo>)
    ensures
        exists|perm: Seq<int>| stably_sorted_by(r@, processes@, perm),
{
    let ghost input = processes@;
    let n = processes.len();
    let mut rest = processes;
    let mut out: Vec<ProcessInfo> = Vec::new();
    let mut keys: Vec<Vec<char>> = Vec::new();
    let ghost mut perm: Seq<int> = Seq::empty();
    let mut i: usize = 0;
    while i < n
        invariant
            i <= n == input.len(),
            rest@ == input.skip(i as int),
            out@.len() == i,
            keys@.len() == i,
            perm.len() == i,
            forall|k: int| 0 <= k < i ==> 0 <= #[trigger] perm[k] < i,
            forall|k: int, l: int| 0 <= k < l < i ==> perm[k] != perm[l],
            forall|k: int| 0 <= k < i ==> #[trigger] out@[k] == input[perm[k]],
            forall|k: int| 0 <= k < i ==> #[trigger] keys@[k]@ == sort_key(out@[k]),
            forall|k: int, l: int|
                0 <= k < l < i ==> ordered_pair(
                    #[trigger] out@[k],
                    perm[k],
                    #[trigger] out@[l],
                    perm[l],
                ),
        decreases n - i,
    {
        let item = rest.remove(0);
        assert(item == input[i as int]);
        assert(rest@ =~= input.skip(i + 1));
        let lowered = to_lowercase(item.name.as_str());
        let key = chars_of(lowered.as_str());
        let mut pos: usize = 0;
        while pos < i && !chars_before(key.as_slice(), keys[pos].as_slice())
            invariant
                pos <= i,
                keys@.len() == i,
                forall|k: int| 0 <= k < pos ==> !text_before(key@, #[trigger] keys@[k]@),
            decreases i - pos,
        {
            pos = pos + 1;
        }
        let ghost old_out = out@;
        let ghost old_keys = keys@;
        let ghost old_perm = perm;
        proof {
            assert forall|k: int| 0 <= k < pos implies ordered_pair(
                #[trigger] old_out[k],
                old_perm[k],
                item,
                i as int,
            ) by {
                lemma_text_before_total(key@, old_keys[k]@);
            }
            assert forall|k: int| pos <= k < i implies text_before(key@, #[trigger] old_keys[k]@) by {
                if k > pos {
                    assert(ordered_pair(old_out[pos as int], old_perm[pos as int], old_out[k], old_perm[k]));
                    if text_before(old_keys[pos as int]@, old_keys[k]@) {
                        lemma_text_before_transitive(key@, old_keys[pos as int]@, old_keys[k]@);
                    }
                }
            }
        }
        out.insert(pos, item);
        keys.insert(pos, key);
        proof {
            perm = old_perm.insert(pos as int, i as int);
            assert forall|k: int| 0 <= k <= i implies #[trigger] out@[k] == input[perm[k]] by {
                if k < pos {
                } else if k == pos {
                } else {
                    assert(out@[k] == old_out[k - 1]);
                }
            }
            assert forall|k: int| 0 <= k <= i implies #[trigger] keys@[k]@ == sort_key(out@[k]) by {
                if k < pos {
                } else if k == pos {
                } else {
                    assert(keys@[k] == old_keys[k - 1]);
                }
            }
            assert forall|k: int| 0 <= k <= i implies 0 <= #[trigger] perm[k] < i + 1 by {
                if k < pos {
                } else if k == pos {
                } else {
                    assert(perm[k] == old_perm[k - 1]);
                }
            }
            assert forall|k: int, l: int| 0 <= k < l <= i implies perm[k] != perm[l] by {
                let pk = if k < pos { old_perm[k] } else if k == pos { i as int } else { old_perm[k - 1] };
                let pl = if l < pos { old_perm[l] } else if l == pos { i as int } else { old_perm[l - 1] };
                assert(perm[k] == pk);
                assert(perm[l] == pl);
                if k != pos && l != pos {
                    let kk = if k < pos { k } else { k - 1 };
                    let ll = if l < pos { l } else { l - 1 };
                    assert(kk < ll);
                    assert(old_perm[kk] != old_perm[ll]);
                } else if k == pos {
                    let ll = l - 1;
                    assert(0 <= old_perm[ll] < i);
                } else {
                    assert(0 <= old_perm[k] < i);
                }
            }
            assert forall|k: int, l: int| 0 <= k < l <= i implies ordered_pair(
                #[trigger] out@[k],
                perm[k],
                #[trigger] out@[l],
                perm[l],
            ) by {
                if k != pos && l != pos {
                    let kk = if k < pos { k } else { k - 1 };
                    let ll = if l < pos { l } else { l - 1 };
                    assert(out@[k] == old_out[kk] && perm[k] == old_perm[kk]);
                    assert(out@[l] == old_out[ll] && perm[l] == old_perm[ll]);
                    assert(ordered_pair(old_out[kk], old_perm[kk], old_out[ll], old_perm[ll]));
                } else if k == pos {
                    let ll = l - 1;
                    assert(out@[l] == old_out[ll] && perm[l] == old_perm[ll]);
                    assert(text_before(key@, old_keys[ll]@));
                } else {
                    assert(out@[k] == old_out[k] && perm[k] == old_perm[k]);
                    assert(ordered_pair(old_out[k], old_perm[k], item, i as int));
                }
            }
        }
        i = i + 1;
    }
    assert(stably_sorted_by(out@, input, perm));
    out
}

/// `needle` occurs in `hay` as a contiguous run.
pub open spec fn occurs_in(needle: Seq<char>, hay: Seq<char>) -> bool {
    exists|i: int| 0 <= i <= hay.len() - needle.len() && #[trigger] hay.subrange(i, i + needle.len()) == needle
}

/// Whether `needle` occurs in `hay`, as `str::contains`.
pub fn contains_text(hay: &[char], needle: &[char]) -> (r: bool)
    ensures
        r == occurs_in(needle@, hay@),
{
    if needle.len() > hay.len() {
        return false;
    }
    let last = hay.len() - needle.len();
    let mut i: usize = 0;
    while i <= last
        invariant
            last == hay.len() - needle.len(),
            i <= last + 1,
            forall|k: int| 0 <= k < i ==> #[trigger] hay@.subrange(k, k + needle.len()) != needle@,
        decreases last + 1 - i,
    {
        let mut j: usize = 0;
        while j < needle.len() && hay[i + j] == needle[j]
            invariant
                i <= last,
                last == hay.len() - needle.len(),
                j <= needle.len(),
                forall|m: int| 0 <= m < j ==> hay@[i + m] == needle@[m],
            decreases needle.len() - j,
        {
            j = j + 1;
        }
        if j == needle.len() {
            assert(hay@.subrange(i as int, i + needle.len()) =~= needle@);
            return true;
        }
        assert(hay@.subrange(i as int, i + needle.len())[j as int] != needle@[j as int]);
        i = i + 1;
    }
    false
}

/// A process matches the filter `f` (already lower-cased) when its
/// lower-cased name or its decimal pid contains it.
pub open spec fn matches_filter(p: ProcessInfo, f: Seq<char>) -> bool {
    occurs_in(f, lowercase(p.name@)) || occurs_in(f, dec_digits(p.pid as nat))
}

/// The processes the selection box lists for `filter`: all of them for a
/// filter that lower-cases to nothing, otherwise those whose lower-cased
/// name or decimal pid contains the lower-cased filter, in order.
pub fn filter_processes(processes: &Vec<ProcessInfo>, filter: &str) -> (r: Vec<ProcessInfo>)
    ensures
        lowercase(filter@).len() == 0 ==> r@ == processes@,
        lowercase(filter@).len() > 0 ==> r@ == processes@.filter(
            |p: ProcessInfo| matches_filter(p, lowercase(filter@)),
        ),
{
    let lowered = to_lowercase(filter);
    let f = chars_of(lowered.as_str());
    let mut out: Vec<ProcessInfo> = Vec::new();
    let ghost pred = |p: ProcessInfo| matches_filter(p, f@);
    let mut i: usize = 0;
    assert(processes@.take(0) =~= Seq::<ProcessInfo>::empty());
    while i < processes.len()
        invariant
            i <= processes.len(),
            f@ == lowercase(filter@),
            pred == (|p: ProcessInfo| matches_filter(p, f@)),
            f@.len() == 0 ==> out@ == processes@.take(i as int),
            f@.len() > 0 ==> out@ == processes@.take(i as int).filter(pred),
        decreases processes.len() - i,
    {
        let p = &processes[i];
        let keep = if f.len() == 0 {
            true
        } else {
            let name = to_lowercase(p.name.as_str());
            let name_chars = chars_of(name.as_str());
            let pid = dec_digit_chars(p.pid as u64);
            contains_text(name_chars.as_slice(), f.as_slice()) || contains_text(
                pid.as_slice(),
                f.as_slice(),
            )
        };
        proof {
            reveal_with_fuel(Seq::<_>::filter, 1);
            assert(processes@.take(i + 1).drop_last() =~= processes@.take(i as int));
        }
        if keep {
            out.push(copy_process(p));
        }
        assert(processes@.take(i + 1) =~= processes@.take(i as int).push(processes@[i as int]));
        i = i + 1;
    }
    assert(processes@.take(processes.len() as int) =~= processes@);
    out
}

/// A copy of a process entry.
pub fn copy_process(p: &ProcessInfo) -> (r: ProcessInfo)
    ensures
        r == *p,
{
    ProcessInfo {
        pid: p.pid,
        name: p.name.clone(),
        exe_path: p.exe_path.clone(),
        is_64bit: p.is_64bit,
    }
}


/// Whether a process is kept depends on its name and pid alone: processes
/// with the same name and pid are kept or dropped alike, whatever their
/// executable paths or bitness.
pub proof fn law_filter_reads_name_and_pid(p: ProcessInfo, q: ProcessInfo, f: Seq<char>)
    requires
        p.name@ == q.name@,
        p.pid == q.pid,
    ensures
        matches_filter(p, f) == matches_filter(q, f),
{
}

/// A process whose lower-cased name and decimal pid both lack the filter
/// is dropped, and one whose lower-cased name or decimal pid holds it is
/// kept.
pub proof fn law_filter_keeps_by_name_or_pid(p: ProcessInfo, f: Seq<char>)
    ensures
        matches_filter(p, f) <==> (exists|i: int|
            0 <= i <= lowercase(p.name@).len() - f.len() && #[trigger] lowercase(p.name@).subrange(
                i,
                i + f.len(),
            ) == f) || (exists|i: int|
            0 <= i <= dec_digits(p.pid as nat).len() - f.len() && #[trigger] dec_digits(
                p.pid as nat,
            ).subrange(i, i + f.len()) == f),
{
}

/// Two process lists that differ only in executable paths and bitness
/// filter to the same pids and names, in the same order.
pub proof fn law_filter_ignores_exe_path(ps: Seq<ProcessInfo>, qs: Seq<ProcessInfo>, f: Seq<char>)
    requires
        ps.len() == qs.len(),
        forall|i: int| 0 <= i < ps.len() ==> (#[trigger] ps[i]).name@ == qs[i].name@ && ps[i].pid == qs[i].pid,
    ensures
        ({
            let a = ps.filter(|p: ProcessInfo| matches_filter(p, f));
            let b = qs.filter(|p: ProcessInfo| matches_filter(p, f));
            &&& a.len() == b.len()
            &&& forall|k: int| 0 <= k < a.len() ==> (#[trigger] a[k]).pid == b[k].pid && a[k].name@ == b[k].name@
        }),
    decreases ps.len(),
{
    reveal_with_fuel(Seq::<_>::filter, 1);
    if ps.len() > 0 {
        let pd = ps.drop_last();
        let qd = qs.drop_last();
        assert forall|i: int| 0 <= i < pd.len() implies (#[trigger] pd[i]).name@ == qd[i].name@ && pd[i].pid
            == qd[i].pid by {
            assert(pd[i] == ps[i]);
            assert(qd[i] == qs[i]);
        }
        law_filter_ignores_exe_path(pd, qd, f);
        let n = ps.len() - 1;
        assert(ps[n].name@ == qs[n].name@ && ps[n].pid == qs[n].pid);
        law_filter_reads_name_and_pid(ps.last(), qs.last(), f);
        let a = ps.filter(|p: ProcessInfo| matches_filter(p, f));
        let b = qs.filter(|p: ProcessInfo| matches_filter(p, f));
        let ap = pd.filter(|p: ProcessInfo| matches_filter(p, f));
        let bp = qd.filter(|p: ProcessInfo| matches_filter(p, f));
        assert forall|k: int| 0 <= k < a.len() implies (#[trigger] a[k]).pid == b[k].pid && a[k].name@
            == b[k].name@ by {
            if k < ap.len() {
                assert(a[k] == ap[k]);
                assert(b[k] == bp[k]);
            }
        }
    }
}

} // verus!
