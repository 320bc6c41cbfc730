//! The two path values of the library.  `PathObj` is the boundary value: a
//! present path (UTF-8 bytes) or a distinguished absent marker, the
//! sentinel for "no path".  `PathBuffer` is the owned, growable path that
//! the mutating operations work on.  Every operation is specified against
//! the component model of `crate::syntax`.

use vstd::prelude::*;
use crate::utf8::valid_utf8;
use crate::utf8::check_utf8;
use crate::utf8::lemma_valid_utf8_concat;
use crate::utf8::lemma_valid_utf8_cut;
use crate::utf8::lemma_valid_ascii_singleton;
use crate::syntax::SEP;
use crate::syntax::DOT;
use crate::syntax::comps;
use crate::syntax::abs_of;
use crate::syntax::is_component;
use crate::syntax::joined;
use crate::syntax::render;
use crate::syntax::push_spec;
use crate::syntax::trim_seps;
use crate::syntax::trim_comp;
use crate::syntax::trim_root;
use crate::syntax::pop_spec;
use crate::syntax::parent_spec;
use crate::syntax::file_name_spec;
use crate::syntax::starts_with_spec;
use crate::syntax::ends_with_spec;
use crate::syntax::strip_prefix_spec;
use crate::syntax::last_dot;
use crate::syntax::stem_of;
use crate::syntax::ext_of;
use crate::syntax::replace_ext;
use crate::syntax::set_file_name_spec;
use crate::syntax::set_extension_spec;
use crate::syntax::is_dot;
use crate::syntax::is_dot_dot;
use crate::syntax::drop_dots;
use crate::syntax::norm_of;
use crate::syntax::norm_comps;
use crate::syntax::lemma_norm_push;
use crate::syntax::lemma_norm_push_dot;
use crate::syntax::lemma_file_name_skip_dot;
use crate::syntax::lemma_comps_empty_iff;
use crate::syntax::lemma_trim_seps_facts;
use crate::syntax::lemma_trim_comp_facts;
use crate::syntax::lemma_pop_comps;
use crate::syntax::lemma_split_last;
use crate::syntax::lemma_comps_valid;
use crate::syntax::lemma_joined_valid;
use crate::syntax::lemma_joined_push;
use crate::syntax::split_comps;
use crate::syntax::emit;

verus! {

/// A path value at the boundary: either a present run of UTF-8 bytes or
/// the absent marker.  Absence is an explicit tag, distinct from a present
/// empty path.
pub struct PathObj {
    present: bool,
    bytes: Vec<u8>,
}

impl View for PathObj {
    type V = Option<Seq<u8>>;

    closed spec fn view(&self) -> Option<Seq<u8>> {
        if self.present {
            Some(self.bytes@)
        } else {
            None
        }
    }
}

impl PathObj {
    /// A present view holds well-formed UTF-8; the absent marker holds
    /// nothing at all.
    pub closed spec fn wf(self) -> bool {
        match self@ {
            Some(s) => valid_utf8(s),
            None => self.bytes@.len() == 0,
        }
    }
}

/// An owned, growable path: the value behind the buffer handle.
pub struct PathBuffer {
    bytes: Vec<u8>,
}

impl View for PathBuffer {
    type V = Seq<u8>;

    closed spec fn view(&self) -> Seq<u8> {
        self.bytes@
    }
}

impl PathBuffer {
    /// The buffer always holds well-formed UTF-8.
    pub closed spec fn wf(self) -> bool {
        valid_utf8(self@)
    }
}

// ------------------------------------------------------------------
// Byte helpers.

/// The bytes of `v` from `lo` up to `hi`, as a fresh vector.
fn copy_range(v: &Vec<u8>, lo: usize, hi: usize) -> (out: Vec<u8>)
    requires
        lo <= hi,
        hi <= v@.len(),
    ensures
        out@ == v@.subrange(lo as int, hi as int),
{
    let mut out: Vec<u8> = Vec::new();
    let mut j = lo;
    while j < hi
        invariant
            lo <= j <= hi <= v@.len(),
            out@ == v@.subrange(lo as int, j as int),
        decreases hi - j,
    {
        out.push(v[j]);
        proof {
            assert(v@.subrange(lo as int, (j + 1) as int) =~= v@.subrange(lo as int, j as int).push(
                v@[j as int],
            ));
        }
        j = j + 1;
    }
    out
}

/// Appends all of `src` to `dst`.
fn push_bytes(dst: &mut Vec<u8>, src: &Vec<u8>)
    ensures
        final(dst)@ == old(dst)@ + src@,
{
    let n = src.len();
    let mut j: usize = 0;
    proof {
        assert(dst@ =~= old(dst)@ + src@.take(0));
    }
    while j < n
        invariant
            j <= n,
            n == src@.len(),
            dst@ == old(dst)@ + src@.take(j as int),
        decreases n - j,
    {
        dst.push(src[j]);
        proof {
            assert(old(dst)@ + src@.take((j + 1) as int) =~= (old(dst)@ + src@.take(
                j as int,
            )).push(src@[j as int]));
        }
        j = j + 1;
    }
    proof {
        assert(src@.take(n as int) =~= src@);
    }
}

/// Byte-for-byte equality of two vectors.
fn bytes_eq(a: &Vec<u8>, b: &Vec<u8>) -> (r: bool)
    ensures
        r == (a@ == b@),
{
    if a.len() != b.len() {
        return false;
    }
    let n = a.len();
    let mut j: usize = 0;
    while j < n
        invariant
            j <= n,
            n == a@.len() == b@.len(),
            forall|i: int| 0 <= i < j ==> a@[i] == b@[i],
        decreases n - j,
    {
        if a[j] != b[j] {
            return false;
        }
        j = j + 1;
    }
    proof {
        assert(a@ =~= b@);
    }
    true
}

/// Where the trailing separator run of the first `end` bytes begins.
fn scan_seps_back(v: &Vec<u8>, end: usize) -> (i: usize)
    requires
        end <= v@.len(),
    ensures
        i <= end,
        v@.take(i as int) == trim_seps(v@.take(end as int)),
        forall|j: int| i <= j < end ==> v@[j] == SEP,
        i > 0 ==> v@[i - 1] != SEP,
    decreases end,
{
    let mut i = end;
    while i > 0 && v[i - 1] == SEP
        invariant
            i <= end <= v@.len(),
            trim_seps(v@.take(end as int)) == trim_seps(v@.take(i as int)),
            forall|j: int| i <= j < end ==> v@[j] == SEP,
        decreases i,
    {
        proof {
            assert(v@.take(i as int)[i - 1] == v@[i - 1]);
            assert(v@.take(i as int).drop_last() =~= v@.take((i - 1) as int));
        }
        i = i - 1;
    }
    proof {
        if i > 0 {
            assert(v@.take(i as int)[i - 1] == v@[i - 1]);
        }
        assert(trim_seps(v@.take(i as int)) == v@.take(i as int));
    }
    i
}

/// Where the trailing non-separator run of the first `end` bytes begins.
fn scan_comp_back(v: &Vec<u8>, end: usize) -> (i: usize)
    requires
        end <= v@.len(),
    ensures
        i <= end,
        v@.take(i as int) == trim_comp(v@.take(end as int)),
        forall|j: int| i <= j < end ==> v@[j] != SEP,
        i > 0 ==> v@[i - 1] == SEP,
    decreases end,
{
    let mut i = end;
    while i > 0 && v[i - 1] != SEP
        invariant
            i <= end <= v@.len(),
            trim_comp(v@.take(end as int)) == trim_comp(v@.take(i as int)),
            forall|j: int| i <= j < end ==> v@[j] != SEP,
        decreases i,
    {
        proof {
            assert(v@.take(i as int)[i - 1] == v@[i - 1]);
            assert(v@.take(i as int).drop_last() =~= v@.take((i - 1) as int));
        }
        i = i - 1;
    }
    proof {
        if i > 0 {
            assert(v@.take(i as int)[i - 1] == v@[i - 1]);
        }
        assert(trim_comp(v@.take(i as int)) == v@.take(i as int));
    }
    i
}

// ------------------------------------------------------------------
// The view.

/// Builds a view of the given bytes; invalid UTF-8 yields the absent
/// marker, never a partial value.
pub fn path_temp_obj(bytes: &Vec<u8>) -> (r: PathObj)
    ensures
        r.wf(),
        valid_utf8(bytes@) ==> r@ == Some(bytes@),
        !valid_utf8(bytes@) ==> r@ is None,
{
    if check_utf8(bytes) {
        let b = copy_range(bytes, 0, bytes.len());
        proof {
            assert(bytes@.subrange(0, bytes@.len() as int) =~= bytes@);
        }
        PathObj { present: true, bytes: b }
    } else {
        PathObj { present: false, bytes: Vec::new() }
    }
}

/// The absent view: the structural "no path" sentinel.
pub fn path_obj_absent() -> (r: PathObj)
    ensures
        r.wf(),
        r@ is None,
{
    PathObj { present: false, bytes: Vec::new() }
}

/// Whether the view is present.
pub fn path_obj_is_present(p: &PathObj) -> (r: bool)
    ensures
        r == (p@ is Some),
{
    p.present
}

/// The UTF-8 bytes of a present view; the absent view yields nothing.
pub fn path_to_str(p: &PathObj) -> (r: Option<Vec<u8>>)
    ensures
        match r {
            Some(b) => p@ == Some(b@),
            None => p@ is None,
        },
{
    if p.present {
        let b = copy_range(&p.bytes, 0, p.bytes.len());
        proof {
            assert(p.bytes@.subrange(0, p.bytes@.len() as int) =~= p.bytes@);
        }
        Some(b)
    } else {
        None
    }
}

// ------------------------------------------------------------------
// The buffer: construction and conversion.

/// A new empty path buffer.
pub fn path_empty() -> (r: PathBuffer)
    ensures
        r.wf(),
        r@ == Seq::<u8>::empty(),
{
    let b: Vec<u8> = Vec::new();
    PathBuffer { bytes: b }
}

/// A new buffer holding exactly `bytes`; invalid UTF-8 yields the absent
/// result, never a partially constructed buffer.
pub fn path_create(bytes: &Vec<u8>) -> (r: Option<PathBuffer>)
    ensures
        match r {
            Some(b) => b.wf() && b@ == bytes@ && valid_utf8(bytes@),
            None => !valid_utf8(bytes@),
        },
{
    if check_utf8(bytes) {
        let b = copy_range(bytes, 0, bytes.len());
        proof {
            assert(bytes@.subrange(0, bytes@.len() as int) =~= bytes@);
        }
        Some(PathBuffer { bytes: b })
    } else {
        None
    }
}

/// An independent buffer with the same content.
pub fn path_clone(p: &PathBuffer) -> (r: PathBuffer)
    requires
        p.wf(),
    ensures
        r.wf(),
        r@ == p@,
{
    let b = copy_range(&p.bytes, 0, p.bytes.len());
    proof {
        assert(p.bytes@.subrange(0, p.bytes@.len() as int) =~= p.bytes@);
    }
    PathBuffer { bytes: b }
}

/// A buffer materializing a present view; the absent view yields nothing.
pub fn path_buf_from_obj(p: &PathObj) -> (r: Option<PathBuffer>)
    requires
        p.wf(),
    ensures
        match r {
            Some(b) => b.wf() && p@ == Some(b@),
            None => p@ is None,
        },
{
    if p.present {
        let b = copy_range(&p.bytes, 0, p.bytes.len());
        proof {
            assert(p.bytes@.subrange(0, p.bytes@.len() as int) =~= p.bytes@);
        }
        Some(PathBuffer { bytes: b })
    } else {
        None
    }
}

/// A present view of the buffer's current bytes.
pub fn path_buf_to_obj(p: &PathBuffer) -> (r: PathObj)
    requires
        p.wf(),
    ensures
        r.wf(),
        r@ == Some(p@),
{
    let b = copy_range(&p.bytes, 0, p.bytes.len());
    proof {
        assert(p.bytes@.subrange(0, p.bytes@.len() as int) =~= p.bytes@);
    }
    PathObj { present: true, bytes: b }
}

// ------------------------------------------------------------------
// Mutation.

/// Appends `tail` to `bytes` under the path-joining rules.
fn push_onto(bytes: &mut Vec<u8>, tail: &Vec<u8>)
    requires
        valid_utf8(old(bytes)@),
        valid_utf8(tail@),
    ensures
        final(bytes)@ == push_spec(old(bytes)@, tail@),
        valid_utf8(final(bytes)@),
{
    if (tail.len() > 0 && tail[0] == SEP) || bytes.len() == 0 {
        bytes.clear();
        push_bytes(bytes, tail);
        proof {
            assert(Seq::<u8>::empty() + tail@ =~= tail@);
        }
    } else if bytes[bytes.len() - 1] == SEP {
        push_bytes(bytes, tail);
        proof {
            lemma_valid_utf8_concat(old(bytes)@, tail@);
        }
    } else {
        bytes.push(SEP);
        push_bytes(bytes, tail);
        proof {
            lemma_valid_ascii_singleton(SEP);
            lemma_valid_utf8_concat(old(bytes)@, seq![SEP]);
            lemma_valid_utf8_concat(old(bytes)@ + seq![SEP], tail@);
            assert(old(bytes)@.push(SEP) =~= old(bytes)@ + seq![SEP]);
            assert(bytes@ =~= old(bytes)@ + seq![SEP] + tail@);
        }
    }
}

/// Appends a present view to the buffer in place: an absolute view
/// replaces the whole path, a relative one follows after one separator.
pub fn path_push(p: &mut PathBuffer, leaf: &PathObj)
    requires
        old(p).wf(),
        leaf.wf(),
        leaf@ is Some,
    ensures
        final(p).wf(),
        final(p)@ == push_spec(old(p)@, leaf@.unwrap()),
{
    push_onto(&mut p.bytes, &leaf.bytes);
}

/// Removes the last component in place; reports whether one was removed.
pub fn path_pop(p: &mut PathBuffer) -> (r: bool)
    requires
        old(p).wf(),
    ensures
        final(p).wf(),
        final(p)@ == pop_spec(old(p)@),
        r == (comps(old(p)@).len() > 0),
{
    let ghost s = p.bytes@;
    let n = p.bytes.len();
    proof {
        assert(s.take(n as int) =~= s);
    }
    let i1 = scan_seps_back(&p.bytes, n);
    let i2 = scan_comp_back(&p.bytes, i1);
    proof {
        assert(s.take(i1 as int).take(i2 as int) =~= s.take(i2 as int));
    }
    if i2 == i1 {
        proof {
            lemma_trim_seps_facts(s);
            if i1 > 0 {
                lemma_trim_comp_facts(s.take(i1 as int));
                assert(s.take(i1 as int)[i1 - 1] == s[i1 - 1]);
                assert(trim_comp(s.take(i1 as int)) == trim_comp(s.take(i1 as int).drop_last()));
                assert(trim_comp(s.take(i1 as int).drop_last()).len() <= i1 - 1);
                assert(false);
            }
            assert(forall|j: int| 0 <= j < s.len() ==> s[j] == SEP);
            lemma_comps_empty_iff(s);
        }
        false
    } else {
        proof {
            assert(s[i2 as int] != SEP);
            lemma_comps_empty_iff(s);
            assert(comps(s).len() > 0);
        }
        let i3 = scan_seps_back(&p.bytes, i2);
        proof {
            // take(i1) is trim_seps(s); take(i2) is trim_comp of it;
            // take(i3) is trim_seps of that.
            lemma_trim_seps_facts(s);
            lemma_trim_comp_facts(s.take(i1 as int));
        }
        if i2 == 0 {
            p.bytes.truncate(0);
            proof {
                assert(p.bytes@ =~= Seq::<u8>::empty());
                assert(trim_root(Seq::<u8>::empty()) == Seq::<u8>::empty());
                assert(trim_comp(trim_seps(s)) =~= Seq::<u8>::empty());
                assert(valid_utf8(Seq::<u8>::empty()));
            }
        } else if i3 == 0 {
            // everything before the last component is separators: the
            // path had one component over the root.
            p.bytes.truncate(1);
            proof {
                let w = s.take(i2 as int);
                assert(w[i2 - 1] == s[i2 - 1] == SEP);
                assert(trim_seps(w).len() == 0);
                assert(trim_root(w) == seq![SEP]);
                assert(w[0] == s[0] && w[0] == SEP);
                assert(p.bytes@ =~= seq![s[0]]);
                assert(p.bytes@ =~= seq![SEP]);
                lemma_valid_ascii_singleton(SEP);
            }
        } else {
            p.bytes.truncate(i3);
            proof {
                let w = s.take(i2 as int);
                assert(w[i2 - 1] == s[i2 - 1] == SEP);
                assert(trim_seps(w).len() == i3);
                assert(trim_root(w) == trim_seps(w));
                assert(p.bytes@ =~= s.take(i3 as int));
                assert(s[i3 as int] == SEP);
                lemma_valid_utf8_cut(s, i3 as int);
            }
        }
        true
    }
}

// ------------------------------------------------------------------
// Component extraction.

/// One level up: the path without its final component; the absent marker
/// at a root and for a bare relative component.
pub fn path_parent(p: &PathObj) -> (r: PathObj)
    requires
        p.wf(),
        p@ is Some,
    ensures
        r.wf(),
        r@ == parent_spec(p@.unwrap()),
{
    let ghost s = p.bytes@;
    let n = p.bytes.len();
    proof {
        assert(s.take(n as int) =~= s);
    }
    let i1 = scan_seps_back(&p.bytes, n);
    let i2 = scan_comp_back(&p.bytes, i1);
    proof {
        assert(s.take(i1 as int).take(i2 as int) =~= s.take(i2 as int));
    }
    if i2 == i1 {
        proof {
            lemma_trim_seps_facts(s);
            if i1 > 0 {
                lemma_trim_comp_facts(s.take(i1 as int));
                assert(s.take(i1 as int)[i1 - 1] == s[i1 - 1]);
                assert(trim_comp(s.take(i1 as int)) == trim_comp(s.take(i1 as int).drop_last()));
                assert(trim_comp(s.take(i1 as int).drop_last()).len() <= i1 - 1);
                assert(false);
            }
            assert(forall|j: int| 0 <= j < s.len() ==> s[j] == SEP);
            lemma_comps_empty_iff(s);
        }
        return PathObj { present: false, bytes: Vec::new() };
    }
    proof {
        assert(s[i2 as int] != SEP);
        lemma_comps_empty_iff(s);
        assert(comps(s).len() > 0);
        lemma_pop_comps(s);
        lemma_trim_seps_facts(s);
        lemma_trim_comp_facts(s.take(i1 as int));
        crate::syntax::lemma_comps_trim_root(s.take(i2 as int));
        lemma_trim_seps_facts(s.take(i2 as int));
        // the number of components of s is one more than of its pop
        assert(comps(pop_spec(s)) == comps(s).drop_last());
        assert(pop_spec(s) == trim_root(s.take(i2 as int)));
        assert(comps(s).len() == comps(s.take(i2 as int)).len() + 1);
    }
    let i3 = scan_seps_back(&p.bytes, i2);
    proof {
        assert(s.take(i2 as int).take(i3 as int) =~= s.take(i3 as int));
    }
    if i3 == 0 {
        // everything before the final component is separators: one
        // component in all.
        proof {
            let w = s.take(i2 as int);
            assert(forall|j: int| 0 <= j < w.len() ==> w[j] == SEP);
            lemma_comps_empty_iff(w);
            assert(comps(s).len() == 1);
        }
        if p.bytes.len() > 0 && p.bytes[0] == SEP {
            let mut b: Vec<u8> = Vec::new();
            b.push(SEP);
            proof {
                let w = s.take(i2 as int);
                assert(w[0] == s[0] && s[0] == SEP);
                assert(i2 > 0);
                assert(w[i2 - 1] == s[i2 - 1]);
                assert(w[i2 - 1] == SEP);
                assert(trim_seps(w).len() == 0);
                assert(trim_root(w) == seq![SEP]);
                assert(b@ =~= seq![SEP]);
                lemma_valid_ascii_singleton(SEP);
            }
            return PathObj { present: true, bytes: b };
        } else {
            proof {
                assert(!abs_of(s));
            }
            return PathObj { present: false, bytes: Vec::new() };
        }
    }
    let out = copy_range(&p.bytes, 0, i3);
    proof {
        let w = s.take(i2 as int);
        assert(w[i2 - 1] == s[i2 - 1]);
        assert(w[i2 - 1] == SEP);
        assert(trim_seps(w).len() == i3);
        assert(trim_root(w) == trim_seps(w));
        assert(out@ =~= s.take(i3 as int));
        // at least two components: what is left still ends on a
        // non-separator byte
        assert(s[i3 - 1] != SEP);
        assert(w[i3 - 1] == s[i3 - 1]);
        lemma_comps_empty_iff(w);
        assert(comps(s).len() != 1);
        // the cut sits just before a separator, an ASCII byte
        assert(s[i3 as int] == SEP);
        lemma_valid_utf8_cut(s, i3 as int);
    }
    PathObj { present: true, bytes: out }
}

/// The final component of the first `end` bytes, under the platform
/// rules: trailing `.` components are looked past, and a path ending in
/// `..` has no file name.
fn file_name_at(v: &Vec<u8>, end: usize) -> (r: Option<Vec<u8>>)
    requires
        end <= v@.len(),
        valid_utf8(v@.take(end as int)),
    ensures
        match r {
            Some(nm) => file_name_spec(v@.take(end as int)) == Some(nm@) && valid_utf8(nm@)
                && is_component(nm@),
            None => file_name_spec(v@.take(end as int)) is None,
        },
    decreases end,
{
    let ghost s = v@.take(end as int);
    let i1 = scan_seps_back(v, end);
    let i2 = scan_comp_back(v, i1);
    proof {
        assert(v@.take(i1 as int).take(i2 as int) =~= v@.take(i2 as int));
        assert(s.take(i1 as int) =~= v@.take(i1 as int));
        assert(s.take(i2 as int) =~= v@.take(i2 as int));
        assert(trim_seps(s) == v@.take(i1 as int));
        assert(trim_comp(v@.take(i1 as int)) == v@.take(i2 as int));
    }
    if i2 == i1 {
        // nothing but separators: no component at all
        proof {
            lemma_trim_seps_facts(s);
            if i1 > 0 {
                lemma_trim_comp_facts(v@.take(i1 as int));
                assert(v@.take(i1 as int)[i1 - 1] == v@[i1 - 1]);
                assert(trim_comp(v@.take(i1 as int)) == trim_comp(
                    v@.take(i1 as int).drop_last(),
                ));
                assert(trim_comp(v@.take(i1 as int).drop_last()).len() <= i1 - 1);
                assert(false);
            }
            assert(forall|j: int| 0 <= j < s.len() ==> s[j] == SEP);
            lemma_comps_empty_iff(s);
            assert(drop_dots(Seq::<Seq<u8>>::empty()) == Seq::<Seq<u8>>::empty());
            assert(norm_comps(s).len() == 0);
        }
        return None;
    }
    proof {
        assert(s[i2 as int] == v@[i2 as int]);
        assert(s[i2 as int] != SEP);
        lemma_comps_empty_iff(s);
        lemma_split_last(s);
        lemma_trim_seps_facts(s);
        lemma_trim_comp_facts(v@.take(i1 as int));
        assert(trim_seps(s).skip(i2 as int) =~= v@.subrange(i2 as int, i1 as int));
        assert(comps(s) == comps(v@.take(i2 as int)).push(v@.subrange(i2 as int, i1 as int)));
        // absoluteness agrees between the path and its shortened form
        if i2 > 0 {
            assert(v@.take(i2 as int)[0] == s[0]);
        } else {
            assert(v@.take(i1 as int)[0] == v@[0]);
            assert(v@[0] != SEP);
            assert(s[0] == v@[0]);
        }
        assert(abs_of(v@.take(i2 as int)) == abs_of(s));
        // the cut before the final run sits next to a separator
        if i2 > 0 {
            assert(s[i2 - 1] == v@[i2 - 1]);
            assert(s[i2 - 1] == SEP);
        }
        lemma_valid_utf8_cut(s, i2 as int);
        assert(s.take(i2 as int) =~= v@.take(i2 as int));
    }
    let ghost c = v@.subrange(i2 as int, i1 as int);
    if i1 - i2 == 1 && v[i2] == DOT {
        // a trailing `.`: the file name is that of what precedes it
        proof {
            assert(c.len() == 1 && c[0] == v@[i2 as int]);
            assert(is_dot(c));
            lemma_file_name_skip_dot(s, v@.take(i2 as int), c);
        }
        return file_name_at(v, i2);
    }
    proof {
        assert(c[0] == v@[i2 as int] && c.len() == i1 - i2);
        assert(c.len() >= 2 ==> c[1] == v@[i2 + 1]);
        assert(!is_dot(c));
        lemma_norm_push(comps(v@.take(i2 as int)), c, abs_of(s));
        assert(norm_comps(s) == norm_of(comps(v@.take(i2 as int)), abs_of(s)).push(c));
        assert(norm_comps(s).last() == c);
    }
    if i1 - i2 == 2 && v[i2] == DOT && v[i2 + 1] == DOT {
        // a trailing `..`: the platform reports no file name
        proof {
            assert(is_dot_dot(c));
        }
        return None;
    }
    let out = copy_range(v, i2, i1);
    proof {
        assert(!is_dot_dot(c));
        // UTF-8: the component sits between ASCII separators (or the ends)
        let t = s.skip(i2 as int);
        if i1 < end {
            assert(t[(i1 - i2) as int] == s[i1 as int]);
            assert(s[i1 as int] == v@[i1 as int]);
            assert(s[i1 as int] == SEP);
        }
        lemma_valid_utf8_cut(t, (i1 - i2) as int);
        assert(t.take((i1 - i2) as int) =~= c);
    }
    Some(out)
}

/// The final component under the platform rules, absent when the path has
/// none — in particular at a root, for a path of `.`s alone, and for a
/// path that ends in `..`.
pub fn path_file_name(p: &PathObj) -> (r: Option<Vec<u8>>)
    requires
        p.wf(),
        p@ is Some,
    ensures
        match r {
            Some(nm) => file_name_spec(p@.unwrap()) == Some(nm@) && valid_utf8(nm@)
                && is_component(nm@),
            None => file_name_spec(p@.unwrap()) is None,
        },
{
    proof {
        assert(p.bytes@.take(p.bytes@.len() as int) =~= p.bytes@);
    }
    file_name_at(&p.bytes, p.bytes.len())
}

/// Where the final `.` of `name` sits: one past it, or zero when there is
/// none at all.
fn scan_last_dot(name: &Vec<u8>) -> (i: usize)
    ensures
        i == last_dot(name@) + 1,
        i <= name@.len(),
        i > 0 ==> name@[i - 1] == DOT,
{
    let mut i = name.len();
    proof {
        assert(name@.take(name@.len() as int) =~= name@);
    }
    while i > 0 && name[i - 1] != DOT
        invariant
            i <= name@.len(),
            last_dot(name@) == last_dot(name@.take(i as int)),
        decreases i,
    {
        proof {
            assert(name@.take(i as int)[i - 1] == name@[i - 1]);
            assert(name@.take(i as int).drop_last() =~= name@.take((i - 1) as int));
        }
        i = i - 1;
    }
    proof {
        if i > 0 {
            assert(name@.take(i as int)[i - 1] == name@[i - 1]);
            assert(last_dot(name@.take(i as int)) == i - 1);
        } else {
            assert(name@.take(0) =~= Seq::<u8>::empty());
        }
    }
    i
}

/// The stem of the final component: the file name up to its final `.`; a
/// name whose only `.` leads it is all stem.  Absent without a file name.
pub fn path_file_stem(p: &PathObj) -> (r: Option<Vec<u8>>)
    requires
        p.wf(),
        p@ is Some,
    ensures
        match r {
            Some(st) => file_name_spec(p@.unwrap()) is Some && st@ == stem_of(
                file_name_spec(p@.unwrap()).unwrap(),
            ) && valid_utf8(st@),
            None => file_name_spec(p@.unwrap()) is None,
        },
{
    let name = match path_file_name(p) {
        Some(nm) => nm,
        None => { return None; },
    };
    let d = scan_last_dot(&name);
    if d <= 1 {
        Some(name)
    } else {
        let out = copy_range(&name, 0, d - 1);
        proof {
            assert(name@[(d - 1) as int] == DOT);
            lemma_valid_utf8_cut(name@, (d - 1) as int);
            assert(name@.take((d - 1) as int) =~= name@.subrange(0, (d - 1) as int));
        }
        Some(out)
    }
}

/// The extension of the final component: what follows its final `.`;
/// absent without a file name or without such a `.`.
pub fn path_extension(p: &PathObj) -> (r: Option<Vec<u8>>)
    requires
        p.wf(),
        p@ is Some,
    ensures
        match r {
            Some(ex) => file_name_spec(p@.unwrap()) is Some && ext_of(
                file_name_spec(p@.unwrap()).unwrap(),
            ) == Some(ex@) && valid_utf8(ex@),
            None => file_name_spec(p@.unwrap()) is None || ext_of(
                file_name_spec(p@.unwrap()).unwrap(),
            ) is None,
        },
{
    let name = match path_file_name(p) {
        Some(nm) => nm,
        None => { return None; },
    };
    let d = scan_last_dot(&name);
    if d <= 1 {
        None
    } else {
        let out = copy_range(&name, d, name.len());
        proof {
            assert(name@[(d - 1) as int] == DOT);
            lemma_valid_utf8_cut(name@, d as int);
            assert(name@.skip(d as int) =~= name@.subrange(d as int, name@.len() as int));
        }
        Some(out)
    }
}

// ------------------------------------------------------------------
// Derived constructions.

/// A new buffer: `a` with `b` appended under the joining rules; an
/// absolute `b` replaces `a` outright.
pub fn path_join(a: &PathObj, b: &PathObj) -> (r: PathBuffer)
    requires
        a.wf(),
        b.wf(),
        a@ is Some,
        b@ is Some,
    ensures
        r.wf(),
        r@ == push_spec(a@.unwrap(), b@.unwrap()),
{
    let mut bytes = copy_range(&a.bytes, 0, a.bytes.len());
    proof {
        assert(a.bytes@.subrange(0, a.bytes@.len() as int) =~= a.bytes@);
    }
    push_onto(&mut bytes, &b.bytes);
    PathBuffer { bytes: bytes }
}

/// Replaces the final component in place, or appends one when there is
/// none; invalid UTF-8 is rejected and leaves the buffer unchanged.
pub fn path_set_file_name(p: &mut PathBuffer, name: &Vec<u8>) -> (r: bool)
    requires
        old(p).wf(),
    ensures
        final(p).wf(),
        r == valid_utf8(name@),
        r ==> final(p)@ == set_file_name_spec(old(p)@, name@),
        !r ==> final(p)@ == old(p)@,
{
    if !check_utf8(name) {
        return false;
    }
    let obj = path_buf_to_obj(p);
    let has = match path_file_name(&obj) {
        Some(_) => true,
        None => false,
    };
    if has {
        let popped = path_pop(p);
        proof {
            assert(popped || pop_spec(old(p)@) == old(p)@);
        }
    }
    push_onto(&mut p.bytes, name);
    true
}

/// Replaces or adds the extension of the final component in place; fails
/// on invalid UTF-8 or without a file name, leaving the buffer unchanged.
pub fn path_set_extension(p: &mut PathBuffer, ext: &Vec<u8>) -> (r: bool)
    requires
        old(p).wf(),
    ensures
        final(p).wf(),
        r == (valid_utf8(ext@) && file_name_spec(old(p)@) is Some),
        r ==> final(p)@ == set_extension_spec(old(p)@, ext@),
        !r ==> final(p)@ == old(p)@,
{
    if !check_utf8(ext) {
        return false;
    }
    let obj = path_buf_to_obj(p);
    let name = match path_file_name(&obj) {
        Some(nm) => nm,
        None => { return false; },
    };
    let d = scan_last_dot(&name);
    let mut newname = if d <= 1 {
        copy_range(&name, 0, name.len())
    } else {
        copy_range(&name, 0, d - 1)
    };
    proof {
        if d <= 1 {
            assert(name@.subrange(0, name@.len() as int) =~= name@);
        } else {
            assert(name@[(d - 1) as int] == DOT);
            lemma_valid_utf8_cut(name@, (d - 1) as int);
            assert(name@.take((d - 1) as int) =~= name@.subrange(0, (d - 1) as int));
        }
        assert(newname@ == stem_of(name@));
        assert(valid_utf8(newname@));
    }
    let ghost stem = newname@;
    if ext.len() > 0 {
        newname.push(DOT);
        push_bytes(&mut newname, ext);
        proof {
            lemma_valid_ascii_singleton(DOT);
            lemma_valid_utf8_concat(stem, seq![DOT]);
            lemma_valid_utf8_concat(stem + seq![DOT], ext@);
            assert(stem.push(DOT) =~= stem + seq![DOT]);
            assert(newname@ =~= stem + seq![DOT] + ext@);
        }
    }
    proof {
        assert(newname@ == replace_ext(name@, ext@));
    }
    proof {
        // a present file name means the path has a component at all
        if comps(old(p)@).len() == 0 {
            assert(drop_dots(Seq::<Seq<u8>>::empty()) == Seq::<Seq<u8>>::empty());
            assert(norm_comps(old(p)@).len() == 0);
            assert(false);
        }
    }
    let had = path_pop(p);
    push_onto(&mut p.bytes, &newname);
    proof {
        assert(had);
    }
    true
}

/// A new buffer with the final component replaced, the input untouched;
/// absent on invalid UTF-8.
pub fn path_with_file_name(p: &PathObj, name: &Vec<u8>) -> (r: Option<PathBuffer>)
    requires
        p.wf(),
        p@ is Some,
    ensures
        match r {
            Some(b) => valid_utf8(name@) && b.wf() && b@ == set_file_name_spec(
                p@.unwrap(),
                name@,
            ),
            None => !valid_utf8(name@),
        },
{
    let mut buf = match path_buf_from_obj(p) {
        Some(b) => b,
        None => { return None; },
    };
    if path_set_file_name(&mut buf, name) {
        Some(buf)
    } else {
        None
    }
}

/// A new buffer with the extension replaced, the input untouched; absent
/// on invalid UTF-8; without a file name the path is handed back as it is.
pub fn path_with_extension(p: &PathObj, ext: &Vec<u8>) -> (r: Option<PathBuffer>)
    requires
        p.wf(),
        p@ is Some,
    ensures
        match r {
            Some(b) => valid_utf8(ext@) && b.wf() && b@ == (if file_name_spec(p@.unwrap()) is Some {
                set_extension_spec(p@.unwrap(), ext@)
            } else {
                p@.unwrap()
            }),
            None => !valid_utf8(ext@),
        },
{
    if !check_utf8(ext) {
        return None;
    }
    let mut buf = match path_buf_from_obj(p) {
        Some(b) => b,
        None => { return None; },
    };
    let had = path_set_extension(&mut buf, ext);
    proof {
        if !had {
            assert(file_name_spec(p@.unwrap()) is None);
        }
    }
    Some(buf)
}

// ------------------------------------------------------------------
// Component-wise comparison.

/// The mathematical view of a parsed component list.
pub open spec fn views_of(cs: Seq<Vec<u8>>) -> Seq<Seq<u8>> {
    cs.map_values(|c: Vec<u8>| c@)
}

/// Parses the bytes into their components.
fn parse_comps(v: &Vec<u8>) -> (out: Vec<Vec<u8>>)
    ensures
        views_of(out@) == comps(v@),
{
    let n = v.len();
    let mut out: Vec<Vec<u8>> = Vec::new();
    let mut cur: Vec<u8> = Vec::new();
    let mut i: usize = 0;
    proof {
        assert(v@.skip(0) =~= v@);
        assert(views_of(out@) =~= Seq::<Seq<u8>>::empty());
        assert(views_of(out@) + split_comps(v@, cur@) =~= split_comps(v@, cur@));
    }
    while i < n
        invariant
            i <= n,
            n == v@.len(),
            comps(v@) == views_of(out@) + split_comps(v@.skip(i as int), cur@),
        decreases n - i,
    {
        let ghost out0 = out@;
        let ghost cur0 = cur@;
        let ghost srem = v@.skip(i as int);
        proof {
            assert(srem[0] == v@[i as int]);
            assert(srem.skip(1) =~= v@.skip((i + 1) as int));
        }
        if v[i] == SEP {
            if cur.len() > 0 {
                let done = cur;
                cur = Vec::new();
                out.push(done);
                proof {
                    assert(views_of(out@) =~= views_of(out0).push(cur0));
                    assert(emit(cur0) =~= seq![cur0]);
                    assert(views_of(out0) + (seq![cur0] + split_comps(srem.skip(1), Seq::empty()))
                        =~= views_of(out0).push(cur0) + split_comps(srem.skip(1), Seq::empty()));
                }
            } else {
                proof {
                    assert(emit(cur0) =~= Seq::<Seq<u8>>::empty());
                    assert(Seq::<Seq<u8>>::empty() + split_comps(srem.skip(1), Seq::empty()) =~=
                        split_comps(srem.skip(1), Seq::empty()));
                    assert(cur@ =~= Seq::<u8>::empty());
                }
            }
        } else {
            cur.push(v[i]);
        }
        i = i + 1;
    }
    proof {
        assert(v@.skip(n as int) =~= Seq::<u8>::empty());
    }
    if cur.len() > 0 {
        let ghost out0 = out@;
        let ghost cur0 = cur@;
        out.push(cur);
        proof {
            assert(emit(cur0) =~= seq![cur0]);
            assert(views_of(out@) =~= views_of(out0).push(cur0));
            assert(views_of(out0) + seq![cur0] =~= views_of(out0).push(cur0));
        }
    } else {
        proof {
            assert(emit(cur@) =~= Seq::<Seq<u8>>::empty());
            assert(views_of(out@) + Seq::<Seq<u8>>::empty() =~= views_of(out@));
        }
    }
    out
}

/// Parses the bytes into their platform components: a non-leading `.`
/// contributes nothing; a leading `.` of a relative path is kept.
fn normalize_comps(v: &Vec<u8>) -> (out: Vec<Vec<u8>>)
    ensures
        views_of(out@) == norm_comps(v@),
        valid_utf8(v@) ==> forall|j: int| 0 <= j < out@.len() ==> valid_utf8(#[trigger] out@[j]@),
{
    let cs = parse_comps(v);
    let abs = v.len() > 0 && v[0] == SEP;
    let n = cs.len();
    let mut out: Vec<Vec<u8>> = Vec::new();
    let mut k: usize = 0;
    proof {
        assert(views_of(cs@).take(0) =~= Seq::<Seq<u8>>::empty());
        assert(drop_dots(Seq::<Seq<u8>>::empty()) == Seq::<Seq<u8>>::empty());
        assert(views_of(out@) =~= Seq::<Seq<u8>>::empty());
        if valid_utf8(v@) {
            lemma_comps_valid(v@);
        }
    }
    while k < n
        invariant
            k <= n,
            n == cs@.len(),
            views_of(cs@) == comps(v@),
            abs == abs_of(v@),
            views_of(out@) == norm_of(views_of(cs@).take(k as int), abs),
            valid_utf8(v@) ==> forall|j: int|
                0 <= j < out@.len() ==> valid_utf8(#[trigger] out@[j]@),
        decreases n - k,
    {
        let ghost pre = views_of(cs@).take(k as int);
        let ghost cv = cs@[k as int]@;
        let ghost out0 = out@;
        proof {
            assert(views_of(cs@)[k as int] == cv);
            assert(views_of(cs@).take((k + 1) as int) =~= pre.push(cv));
            assert(pre.len() == k);
            if valid_utf8(v@) {
                lemma_comps_valid(v@);
                assert(valid_utf8(comps(v@)[k as int]));
            }
        }
        let keep = !(cs[k].len() == 1 && cs[k][0] == DOT) || (k == 0 && !abs);
        proof {
            if cv.len() == 1 && cv[0] == DOT {
                lemma_norm_push_dot(pre, cv, abs);
            } else {
                assert(!is_dot(cv));
                lemma_norm_push(pre, cv, abs);
            }
        }
        if keep {
            let kept = copy_range(&cs[k], 0, cs[k].len());
            proof {
                assert(cv.subrange(0, cv.len() as int) =~= cv);
            }
            out.push(kept);
            proof {
                assert(views_of(out@) =~= views_of(out0).push(cv));
            }
        }
        k = k + 1;
    }
    proof {
        assert(views_of(cs@).take(n as int) =~= views_of(cs@));
    }
    out
}

/// Whether the components of `bc` are a prefix of those of `pc`.
fn comps_prefix(pc: &Vec<Vec<u8>>, bc: &Vec<Vec<u8>>) -> (r: bool)
    ensures
        r == views_of(bc@).is_prefix_of(views_of(pc@)),
{
    let m = bc.len();
    if m > pc.len() {
        return false;
    }
    let mut k: usize = 0;
    while k < m
        invariant
            k <= m,
            m == bc@.len(),
            m <= pc@.len(),
            forall|i: int| 0 <= i < k ==> views_of(bc@)[i] == views_of(pc@)[i],
        decreases m - k,
    {
        if !bytes_eq(&bc[k], &pc[k]) {
            proof {
                assert(views_of(bc@)[k as int] == bc@[k as int]@);
                assert(views_of(pc@)[k as int] == pc@[k as int]@);
                if views_of(bc@).is_prefix_of(views_of(pc@)) {
                    assert(views_of(bc@) =~= views_of(pc@).subrange(0, m as int));
                    assert(views_of(bc@)[k as int] == views_of(pc@)[k as int]);
                    assert(false);
                }
            }
            return false;
        }
        proof {
            assert(views_of(bc@)[k as int] == bc@[k as int]@);
            assert(views_of(pc@)[k as int] == pc@[k as int]@);
        }
        k = k + 1;
    }
    proof {
        assert(views_of(bc@) =~= views_of(pc@).subrange(0, m as int));
    }
    true
}

/// Whether the components of `cc` are a suffix of those of `pc`.
fn comps_suffix(pc: &Vec<Vec<u8>>, cc: &Vec<Vec<u8>>) -> (r: bool)
    ensures
        r == views_of(cc@).is_suffix_of(views_of(pc@)),
{
    let m = cc.len();
    if m > pc.len() {
        return false;
    }
    let plen = pc.len();
    let off = plen - m;
    let mut k: usize = 0;
    while k < m
        invariant
            k <= m,
            m == cc@.len(),
            m <= pc@.len(),
            plen == pc@.len(),
            off == plen - m,
            forall|i: int| 0 <= i < k ==> views_of(cc@)[i] == views_of(pc@)[off + i],
        decreases m - k,
    {
        if !bytes_eq(&cc[k], &pc[off + k]) {
            proof {
                assert(views_of(cc@)[k as int] == cc@[k as int]@);
                assert(views_of(pc@)[off + k] == pc@[(off + k) as int]@);
                if views_of(cc@).is_suffix_of(views_of(pc@)) {
                    assert(views_of(cc@) =~= views_of(pc@).subrange(
                        off as int,
                        pc@.len() as int,
                    ));
                    assert(views_of(cc@)[k as int] == views_of(pc@)[off + k]);
                    assert(false);
                }
            }
            return false;
        }
        proof {
            assert(views_of(cc@)[k as int] == cc@[k as int]@);
            assert(views_of(pc@)[off + k] == pc@[(off + k) as int]@);
        }
        k = k + 1;
    }
    proof {
        assert(views_of(cc@) =~= views_of(pc@).subrange(off as int, pc@.len() as int));
    }
    true
}

/// Component-wise prefix test with matching absoluteness.
pub fn path_starts_with(p: &PathObj, base: &PathObj) -> (r: bool)
    requires
        p@ is Some,
        base@ is Some,
    ensures
        r == starts_with_spec(p@.unwrap(), base@.unwrap()),
{
    let pa = path_is_absolute(p);
    let ba = path_is_absolute(base);
    if pa != ba {
        return false;
    }
    let pc = normalize_comps(&p.bytes);
    let bc = normalize_comps(&base.bytes);
    comps_prefix(&pc, &bc)
}

/// Component-wise suffix test; an absolute `child` matches only the whole
/// of an absolute path.
pub fn path_ends_with(p: &PathObj, child: &PathObj) -> (r: bool)
    requires
        p@ is Some,
        child@ is Some,
    ensures
        r == ends_with_spec(p@.unwrap(), child@.unwrap()),
{
    let ca = path_is_absolute(child);
    let pc = normalize_comps(&p.bytes);
    let cc = normalize_comps(&child.bytes);
    if ca {
        if !(p.bytes.len() > 0 && p.bytes[0] == SEP) {
            return false;
        }
        if cc.len() != pc.len() {
            proof {
                assert(norm_comps(child@.unwrap()).len() != norm_comps(p@.unwrap()).len());
            }
            return false;
        }
        let r = comps_suffix(&pc, &cc);
        proof {
            if r {
                assert(views_of(pc@).subrange(0, pc@.len() as int) =~= views_of(pc@));
            }
            if norm_comps(child@.unwrap()) == norm_comps(p@.unwrap()) {
                assert(views_of(cc@).is_suffix_of(views_of(pc@)));
            }
        }
        r
    } else {
        comps_suffix(&pc, &cc)
    }
}

/// The path after the component-wise prefix `pre`, rendered canonically
/// and relative; the absent marker when `pre` is no prefix.
pub fn path_strip_prefix(p: &PathObj, pre: &PathObj) -> (r: PathObj)
    requires
        p.wf(),
        p@ is Some,
        pre@ is Some,
    ensures
        r.wf(),
        r@ == strip_prefix_spec(p@.unwrap(), pre@.unwrap()),
{
    let pa = path_is_absolute(p);
    let ba = path_is_absolute(pre);
    if pa != ba {
        return PathObj { present: false, bytes: Vec::new() };
    }
    let pc = normalize_comps(&p.bytes);
    let bc = normalize_comps(&pre.bytes);
    if !comps_prefix(&pc, &bc) {
        return PathObj { present: false, bytes: Vec::new() };
    }
    let out = render_rel(&pc, bc.len());
    proof {
        let s = p.bytes@;
        let rest = norm_comps(s).skip(norm_comps(pre.bytes@).len() as int);
        assert(views_of(pc@).skip(bc@.len() as int) =~= rest);
        assert(render(false, rest) =~= joined(rest));
        assert forall|k: int| 0 <= k < rest.len() implies #[trigger] valid_utf8(rest[k]) by {
            assert(rest[k] == views_of(pc@)[k + bc@.len()]);
            assert(views_of(pc@)[k + bc@.len()] == pc@[k + bc@.len()]@);
            assert(valid_utf8(pc@[k + bc@.len()]@));
        }
        lemma_joined_valid(rest);
    }
    PathObj { present: true, bytes: out }
}

/// Renders the components of `cs` from `from` on as a relative path.
fn render_rel(cs: &Vec<Vec<u8>>, from: usize) -> (out: Vec<u8>)
    requires
        from <= cs@.len(),
    ensures
        out@ == joined(views_of(cs@).skip(from as int)),
{
    let mut out: Vec<u8> = Vec::new();
    let mut k = from;
    proof {
        assert(views_of(cs@).skip(from as int).take(0) =~= Seq::<Seq<u8>>::empty());
    }
    while k < cs.len()
        invariant
            from <= k <= cs@.len(),
            out@ == joined(views_of(cs@).skip(from as int).take((k - from) as int)),
        decreases cs@.len() - k,
    {
        let ghost pre = views_of(cs@).skip(from as int).take((k - from) as int);
        if k > from {
            out.push(SEP);
        }
        push_bytes(&mut out, &cs[k]);
        proof {
            let c = cs@[k as int]@;
            assert(views_of(cs@)[k as int] == c);
            assert(views_of(cs@).skip(from as int).take(((k + 1) - from) as int) =~= pre.push(c));
            lemma_joined_push(pre, c);
            if k == from {
                assert(pre.len() == 0);
                assert(Seq::<u8>::empty() + c =~= c);
            } else {
                assert(joined(pre).push(SEP) + c =~= joined(pre) + seq![SEP] + c);
            }
        }
        k = k + 1;
    }
    proof {
        assert(views_of(cs@).skip(from as int).take((cs@.len() - from) as int) =~= views_of(
            cs@,
        ).skip(from as int));
    }
    out
}

// ------------------------------------------------------------------
// Pure predicates of a present view.

/// Whether the path is absolute: it begins at a root.
pub fn path_is_absolute(p: &PathObj) -> (r: bool)
    requires
        p@ is Some,
    ensures
        r == abs_of(p@.unwrap()),
{
    p.bytes.len() > 0 && p.bytes[0] == SEP
}

/// Whether the path is relative: not absolute.
pub fn path_is_relative(p: &PathObj) -> (r: bool)
    requires
        p@ is Some,
    ensures
        r == !abs_of(p@.unwrap()),
{
    !(p.bytes.len() > 0 && p.bytes[0] == SEP)
}

/// Whether the path has a root.  Under this platform's syntax that is
/// exactly being absolute.
pub fn path_has_root(p: &PathObj) -> (r: bool)
    requires
        p@ is Some,
    ensures
        r == abs_of(p@.unwrap()),
{
    p.bytes.len() > 0 && p.bytes[0] == SEP
}

} // verus!
