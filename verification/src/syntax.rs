//! The syntax of path text: a path is a byte sequence; its raw components
//! are the maximal runs of non-separator bytes; a path is absolute when it
//! begins with the separator.  On top of the raw runs stands the
//! platform's view (`norm_comps`): a non-leading `.` contributes nothing,
//! a leading `.` of a relative path is the current-directory component,
//! and `..` is kept as a component everywhere.  Every operation of the
//! library is specified here as a function of the bytes, together with
//! the lemmas that relate concatenation, trimming and rendering to the
//! component model.

use vstd::prelude::*;
use crate::utf8::valid_utf8;
use crate::utf8::lemma_valid_utf8_concat;
use crate::utf8::lemma_valid_utf8_cut;

verus! {

/// The path separator byte, `/`.
pub const SEP: u8 = 47;

/// The extension separator byte, `.`.
pub const DOT: u8 = 46;

/// A pending component, emitted only when nonempty.
pub open spec fn emit(cur: Seq<u8>) -> Seq<Seq<u8>> {
    if cur.len() == 0 {
        seq![]
    } else {
        seq![cur]
    }
}

/// Splits `s` on the separator, carrying the partial component `cur`.
pub open spec fn split_comps(s: Seq<u8>, cur: Seq<u8>) -> Seq<Seq<u8>>
    decreases s.len(),
{
    if s.len() == 0 {
        emit(cur)
    } else if s[0] == SEP {
        emit(cur) + split_comps(s.skip(1), Seq::empty())
    } else {
        split_comps(s.skip(1), cur.push(s[0]))
    }
}

/// The components of a path: its maximal runs of non-separator bytes.
/// Repeated separators collapse; leading and trailing ones contribute
/// nothing.
pub open spec fn comps(s: Seq<u8>) -> Seq<Seq<u8>> {
    split_comps(s, Seq::empty())
}

/// The path is absolute: it begins with the separator.
pub open spec fn abs_of(s: Seq<u8>) -> bool {
    s.len() > 0 && s[0] == SEP
}

/// A single well-formed component: nonempty and free of separators.
pub open spec fn is_component(c: Seq<u8>) -> bool {
    c.len() > 0 && forall|i: int| 0 <= i < c.len() ==> c[i] != SEP
}

/// The components joined by single separators.
pub open spec fn joined(cs: Seq<Seq<u8>>) -> Seq<u8>
    decreases cs.len(),
{
    if cs.len() == 0 {
        seq![]
    } else if cs.len() == 1 {
        cs[0]
    } else {
        cs[0] + seq![SEP] + joined(cs.skip(1))
    }
}

/// The canonical spelling of a path with the given components.
pub open spec fn render(abs: bool, cs: Seq<Seq<u8>>) -> Seq<u8> {
    (if abs {
        seq![SEP]
    } else {
        seq![]
    }) + joined(cs)
}

/// A path that is its own canonical spelling: no repeated, leading-extra
/// or trailing separators.
pub open spec fn normalized(s: Seq<u8>) -> bool {
    s == render(abs_of(s), comps(s))
}

/// What push and join produce: `tail` replaces everything when it is
/// absolute or `base` is empty; otherwise `tail` follows `base` after
/// exactly one separator.
pub open spec fn push_spec(base: Seq<u8>, tail: Seq<u8>) -> Seq<u8> {
    if abs_of(tail) || base.len() == 0 {
        tail
    } else if base[base.len() - 1] == SEP {
        base + tail
    } else {
        base + seq![SEP] + tail
    }
}

/// `s` without its trailing separators.
pub open spec fn trim_seps(s: Seq<u8>) -> Seq<u8>
    decreases s.len(),
{
    if s.len() > 0 && s[s.len() - 1] == SEP {
        trim_seps(s.drop_last())
    } else {
        s
    }
}

/// `s` without its trailing run of non-separator bytes.
pub open spec fn trim_comp(s: Seq<u8>) -> Seq<u8>
    decreases s.len(),
{
    if s.len() > 0 && s[s.len() - 1] != SEP {
        trim_comp(s.drop_last())
    } else {
        s
    }
}

/// Drops trailing separators, but keeps a bare root alive.
pub open spec fn trim_root(s: Seq<u8>) -> Seq<u8> {
    if s.len() > 0 && s[s.len() - 1] == SEP {
        if trim_seps(s).len() == 0 {
            seq![SEP]
        } else {
            trim_seps(s)
        }
    } else {
        s
    }
}

/// What pop leaves behind: the path up to, but not including, its final
/// component, trailing separators dropped, the root kept.  A path without
/// components is left as it is.
pub open spec fn pop_spec(s: Seq<u8>) -> Seq<u8> {
    if comps(s).len() == 0 {
        s
    } else {
        trim_root(trim_comp(trim_seps(s)))
    }
}

/// One level up.  Absent at a root and for a bare relative component —
/// absent, not present-and-empty.
pub open spec fn parent_spec(s: Seq<u8>) -> Option<Seq<u8>> {
    if comps(s).len() == 0 {
        None
    } else if comps(s).len() == 1 && !abs_of(s) {
        None
    } else {
        Some(trim_root(trim_comp(trim_seps(s))))
    }
}

/// The current-directory component, a single `.`.
pub open spec fn is_dot(c: Seq<u8>) -> bool {
    c.len() == 1 && c[0] == DOT
}

/// The parent-directory component, `..`.
pub open spec fn is_dot_dot(c: Seq<u8>) -> bool {
    c.len() == 2 && c[0] == DOT && c[1] == DOT
}

/// The component list with every `.` removed: under the platform rules a
/// `.` names the directory already reached and contributes nothing.
pub open spec fn drop_dots(cs: Seq<Seq<u8>>) -> Seq<Seq<u8>>
    decreases cs.len(),
{
    if cs.len() == 0 {
        seq![]
    } else if is_dot(cs[0]) {
        drop_dots(cs.skip(1))
    } else {
        seq![cs[0]] + drop_dots(cs.skip(1))
    }
}

/// The platform's view of a component list: a non-leading `.` is skipped;
/// a leading `.` of a relative path is kept as the current-directory
/// component.  `..` is kept everywhere.
pub open spec fn norm_of(cs: Seq<Seq<u8>>, abs: bool) -> Seq<Seq<u8>> {
    if !abs && cs.len() > 0 && is_dot(cs[0]) {
        seq![cs[0]] + drop_dots(cs.skip(1))
    } else {
        drop_dots(cs)
    }
}

/// The components of a path under the platform rules.
pub open spec fn norm_comps(s: Seq<u8>) -> Seq<Seq<u8>> {
    norm_of(comps(s), abs_of(s))
}

/// The final component under the platform rules, absent when there is
/// none — in particular when the path ends in `..` or holds only `.`s.
pub open spec fn file_name_spec(s: Seq<u8>) -> Option<Seq<u8>> {
    if norm_comps(s).len() == 0 {
        None
    } else if is_dot(norm_comps(s).last()) || is_dot_dot(norm_comps(s).last()) {
        None
    } else {
        Some(norm_comps(s).last())
    }
}

/// Component-wise prefix under the platform rules, with matching
/// absoluteness.
pub open spec fn starts_with_spec(s: Seq<u8>, base: Seq<u8>) -> bool {
    abs_of(s) == abs_of(base) && norm_comps(base).is_prefix_of(norm_comps(s))
}

/// Component-wise suffix under the platform rules.  An absolute `child`
/// matches only the whole of an absolute `s`.
pub open spec fn ends_with_spec(s: Seq<u8>, child: Seq<u8>) -> bool {
    if abs_of(child) {
        abs_of(s) && norm_comps(child) == norm_comps(s)
    } else {
        norm_comps(child).is_suffix_of(norm_comps(s))
    }
}

/// The remainder of `s` after the component-wise prefix `pre`, rendered
/// canonically and always relative; absent when `pre` is no prefix.
pub open spec fn strip_prefix_spec(s: Seq<u8>, pre: Seq<u8>) -> Option<Seq<u8>> {
    if abs_of(s) == abs_of(pre) && norm_comps(pre).is_prefix_of(norm_comps(s)) {
        Some(render(false, norm_comps(s).skip(norm_comps(pre).len() as int)))
    } else {
        None
    }
}

/// The largest index of a `.` in `name`, or -1 when there is none.
pub open spec fn last_dot(name: Seq<u8>) -> int
    decreases name.len(),
{
    if name.len() == 0 {
        -1
    } else if name[name.len() - 1] == DOT {
        name.len() - 1
    } else {
        last_dot(name.drop_last())
    }
}

/// The stem of a file name: what precedes its final `.`.  A name whose
/// only `.` is its first byte, or that has none, is all stem.
pub open spec fn stem_of(name: Seq<u8>) -> Seq<u8> {
    if last_dot(name) <= 0 {
        name
    } else {
        name.take(last_dot(name))
    }
}

/// The extension of a file name: what follows its final `.`, absent when
/// no `.` stands past the first byte.
pub open spec fn ext_of(name: Seq<u8>) -> Option<Seq<u8>> {
    if last_dot(name) <= 0 {
        None
    } else {
        Some(name.skip(last_dot(name) + 1))
    }
}

/// The file name with its extension replaced by `ext` (dropped when `ext`
/// is empty).
pub open spec fn replace_ext(name: Seq<u8>, ext: Seq<u8>) -> Seq<u8> {
    if ext.len() == 0 {
        stem_of(name)
    } else {
        stem_of(name) + seq![DOT] + ext
    }
}

/// What set-file-name produces: the final component, if any, is popped,
/// and `name` is pushed in its place.
pub open spec fn set_file_name_spec(s: Seq<u8>, name: Seq<u8>) -> Seq<u8> {
    if file_name_spec(s) is Some {
        push_spec(pop_spec(s), name)
    } else {
        push_spec(s, name)
    }
}

/// What set-extension produces when a file name is present.
pub open spec fn set_extension_spec(s: Seq<u8>, ext: Seq<u8>) -> Seq<u8> {
    set_file_name_spec(s, replace_ext(file_name_spec(s).unwrap(), ext))
}

// ------------------------------------------------------------------
// The lemma kit around `split_comps`.

proof fn lemma_split_sep(x: Seq<u8>, y: Seq<u8>, cur: Seq<u8>)
    ensures
        split_comps(x + seq![SEP] + y, cur) == split_comps(x, cur) + split_comps(y, Seq::empty()),
    decreases x.len(),
{
    let s = x + seq![SEP] + y;
    if x.len() == 0 {
        assert(s =~= seq![SEP] + y);
        assert(s[0] == SEP);
        assert(s.skip(1) =~= y);
        assert(split_comps(x, cur) == emit(cur));
    } else {
        assert(s[0] == x[0]);
        assert(s.skip(1) =~= x.skip(1) + seq![SEP] + y);
        if x[0] == SEP {
            lemma_split_sep(x.skip(1), y, Seq::empty());
            assert(emit(cur) + (split_comps(x.skip(1), Seq::empty()) + split_comps(
                y,
                Seq::empty(),
            )) =~= (emit(cur) + split_comps(x.skip(1), Seq::empty())) + split_comps(
                y,
                Seq::empty(),
            ));
        } else {
            lemma_split_sep(x.skip(1), y, cur.push(x[0]));
        }
    }
}

/// A separator splits the components cleanly.
pub proof fn lemma_comps_concat_sep(x: Seq<u8>, y: Seq<u8>)
    ensures
        comps(x + seq![SEP] + y) == comps(x) + comps(y),
{
    lemma_split_sep(x, y, Seq::empty());
}

/// Appending after a trailing separator splits the components cleanly.
pub proof fn lemma_comps_sep_concat(x: Seq<u8>, y: Seq<u8>)
    requires
        x.len() > 0,
        x[x.len() - 1] == SEP,
    ensures
        comps(x + y) == comps(x) + comps(y),
{
    assert(x + y =~= x.drop_last() + seq![SEP] + y);
    lemma_comps_concat_sep(x.drop_last(), y);
    assert(x =~= x.drop_last() + seq![SEP] + Seq::<u8>::empty());
    lemma_comps_concat_sep(x.drop_last(), Seq::empty());
    assert(comps(Seq::<u8>::empty()) == Seq::<Seq<u8>>::empty());
    assert(comps(x) + comps(Seq::<u8>::empty()) =~= comps(x));
}

proof fn lemma_split_component(c: Seq<u8>, cur: Seq<u8>)
    requires
        forall|i: int| 0 <= i < c.len() ==> c[i] != SEP,
        cur.len() + c.len() > 0,
    ensures
        split_comps(c, cur) == seq![cur + c],
    decreases c.len(),
{
    if c.len() == 0 {
        assert(cur + c =~= cur);
    } else {
        assert(c[0] != SEP);
        lemma_split_component(c.skip(1), cur.push(c[0]));
        assert(cur.push(c[0]) + c.skip(1) =~= cur + c);
    }
}

/// A single component is its own component list.
pub proof fn lemma_comps_component(c: Seq<u8>)
    requires
        is_component(c),
    ensures
        comps(c) == seq![c],
{
    lemma_split_component(c, Seq::empty());
    assert(Seq::<u8>::empty() + c =~= c);
}

proof fn lemma_split_all_seps(s: Seq<u8>, cur: Seq<u8>)
    requires
        forall|i: int| 0 <= i < s.len() ==> s[i] == SEP,
    ensures
        split_comps(s, cur) == emit(cur),
    decreases s.len(),
{
    if s.len() > 0 {
        assert(s[0] == SEP);
        lemma_split_all_seps(s.skip(1), Seq::empty());
        assert(emit(cur) + emit(Seq::<u8>::empty()) =~= emit(cur));
    }
}

proof fn lemma_split_pos(s: Seq<u8>, cur: Seq<u8>)
    requires
        cur.len() > 0 || exists|i: int| 0 <= i < s.len() && s[i] != SEP,
    ensures
        split_comps(s, cur).len() > 0,
    decreases s.len(),
{
    if s.len() == 0 {
    } else if s[0] == SEP {
        if cur.len() > 0 {
        } else {
            let i = choose|i: int| 0 <= i < s.len() && s[i] != SEP;
            assert(s.skip(1)[i - 1] == s[i]);
            lemma_split_pos(s.skip(1), Seq::empty());
        }
    } else {
        lemma_split_pos(s.skip(1), cur.push(s[0]));
    }
}

/// A path has no components exactly when it holds nothing but separators.
pub proof fn lemma_comps_empty_iff(s: Seq<u8>)
    ensures
        comps(s).len() == 0 <==> (forall|i: int| 0 <= i < s.len() ==> s[i] == SEP),
{
    if forall|i: int| 0 <= i < s.len() ==> s[i] == SEP {
        lemma_split_all_seps(s, Seq::empty());
    } else {
        assert(exists|i: int| 0 <= i < s.len() && s[i] != SEP);
        lemma_split_pos(s, Seq::empty());
    }
}

/// Every element of a component list is a well-formed component.
pub proof fn lemma_comps_are_components(s: Seq<u8>)
    ensures
        forall|k: int| 0 <= k < comps(s).len() ==> #[trigger] is_component(comps(s)[k]),
{
    lemma_split_elems(s, Seq::empty());
}

proof fn lemma_split_elems(s: Seq<u8>, cur: Seq<u8>)
    requires
        forall|i: int| 0 <= i < cur.len() ==> cur[i] != SEP,
    ensures
        forall|k: int|
            0 <= k < split_comps(s, cur).len() ==> #[trigger] is_component(split_comps(s, cur)[k]),
    decreases s.len(),
{
    let r = split_comps(s, cur);
    if s.len() == 0 {
        if cur.len() > 0 {
            assert(is_component(cur));
            assert(r =~= seq![cur]);
        }
    } else if s[0] == SEP {
        lemma_split_elems(s.skip(1), Seq::empty());
        let rest = split_comps(s.skip(1), Seq::<u8>::empty());
        assert forall|k: int| 0 <= k < r.len() implies #[trigger] is_component(r[k]) by {
            if k < emit(cur).len() {
                assert(r[k] == cur);
                assert(is_component(cur));
            } else {
                assert(r[k] == rest[k - emit(cur).len()]);
            }
        }
    } else {
        assert(forall|i: int| 0 <= i < cur.push(s[0]).len() ==> cur.push(s[0])[i] != SEP);
        lemma_split_elems(s.skip(1), cur.push(s[0]));
        assert(r == split_comps(s.skip(1), cur.push(s[0])));
        assert forall|k: int| 0 <= k < r.len() implies #[trigger] is_component(r[k]) by {
            assert(is_component(split_comps(s.skip(1), cur.push(s[0]))[k]));
        }
    }
}

/// Trimming trailing separators keeps the components, stays a prefix, and
/// ends on a non-separator.
pub proof fn lemma_trim_seps_facts(s: Seq<u8>)
    ensures
        comps(trim_seps(s)) == comps(s),
        trim_seps(s).len() <= s.len(),
        trim_seps(s) == s.take(trim_seps(s).len() as int),
        trim_seps(s).len() > 0 ==> trim_seps(s)[trim_seps(s).len() - 1] != SEP,
        forall|j: int| trim_seps(s).len() <= j < s.len() ==> s[j] == SEP,
    decreases s.len(),
{
    if s.len() > 0 && s[s.len() - 1] == SEP {
        lemma_trim_seps_facts(s.drop_last());
        assert(s =~= s.drop_last() + seq![SEP] + Seq::<u8>::empty());
        lemma_comps_concat_sep(s.drop_last(), Seq::empty());
        assert(comps(Seq::<u8>::empty()) == Seq::<Seq<u8>>::empty());
        assert(comps(s) =~= comps(s.drop_last()));
        assert(s.drop_last().take(trim_seps(s).len() as int) =~= s.take(
            trim_seps(s).len() as int,
        ));
    }
}

/// Trimming the trailing component run stays a prefix; what it removed is
/// separator-free; what is left ends on a separator, if anything is left.
pub proof fn lemma_trim_comp_facts(s: Seq<u8>)
    ensures
        trim_comp(s).len() <= s.len(),
        trim_comp(s) == s.take(trim_comp(s).len() as int),
        forall|j: int| trim_comp(s).len() <= j < s.len() ==> s[j] != SEP,
        trim_comp(s).len() > 0 ==> trim_comp(s)[trim_comp(s).len() - 1] == SEP,
    decreases s.len(),
{
    if s.len() > 0 && s[s.len() - 1] != SEP {
        lemma_trim_comp_facts(s.drop_last());
        assert(s.drop_last().take(trim_comp(s).len() as int) =~= s.take(
            trim_comp(s).len() as int,
        ));
        assert forall|j: int| trim_comp(s).len() <= j < s.len() implies s[j] != SEP by {
            if j < s.len() - 1 {
                assert(s[j] == s.drop_last()[j]);
            }
        }
    }
}

/// A separator-free suffix does not change where the trailing component
/// run begins.
pub proof fn lemma_trim_comp_append(x: Seq<u8>, c: Seq<u8>)
    requires
        forall|i: int| 0 <= i < c.len() ==> c[i] != SEP,
    ensures
        trim_comp(x + c) == trim_comp(x),
    decreases c.len(),
{
    if c.len() == 0 {
        assert(x + c =~= x);
    } else {
        assert((x + c)[(x + c).len() - 1] == c[c.len() - 1]);
        assert((x + c).drop_last() =~= x + c.drop_last());
        lemma_trim_comp_append(x, c.drop_last());
    }
}

/// Popping removes exactly the last component and preserves absoluteness.
pub proof fn lemma_pop_comps(s: Seq<u8>)
    requires
        comps(s).len() > 0,
    ensures
        comps(pop_spec(s)) == comps(s).drop_last(),
        abs_of(pop_spec(s)) == abs_of(s),
        pop_spec(s).len() <= s.len(),
{
    let u = trim_seps(s);
    lemma_trim_seps_facts(s);
    lemma_comps_empty_iff(u);
    assert(u.len() > 0);
    let w = trim_comp(u);
    lemma_trim_comp_facts(u);
    let c = u.skip(w.len() as int);
    assert(u =~= w + c);
    assert(c.len() > 0);
    assert(is_component(c));
    lemma_comps_component(c);
    if w.len() == 0 {
        assert(w + c =~= c);
        assert(comps(u) =~= Seq::<Seq<u8>>::empty().push(c));
        assert(comps(u).drop_last() =~= Seq::<Seq<u8>>::empty());
        // pop result is trim_root(w) == empty
        assert(trim_root(w) == w);
        lemma_comps_empty_iff(w);
        assert(!abs_of(s));
        assert(pop_spec(s) == w);
    } else {
        lemma_comps_sep_concat(w, c);
        assert(comps(u) =~= comps(w).push(c));
        assert(comps(u).drop_last() =~= comps(w));
        lemma_trim_seps_facts(w);
        let t = trim_root(w);
        if trim_seps(w).len() == 0 {
            assert(t == seq![SEP]);
            lemma_comps_empty_iff(trim_seps(w));
            assert(forall|i: int| 0 <= i < w.len() ==> w[i] == SEP);
            lemma_split_all_seps(w, Seq::<u8>::empty());
            lemma_split_all_seps(t, Seq::<u8>::empty());
            assert(comps(t) =~= comps(w));
            assert(w[0] == SEP);
            assert(s[0] == SEP);
        } else {
            assert(t == trim_seps(w));
            assert(comps(t) == comps(w));
            assert(t[0] == w[0]);
            assert(w[0] == u[0]);
            assert(u[0] == s[0]);
        }
        assert(pop_spec(s) == t);
    }
}

/// A path with components decomposes into everything before its last
/// component and that component itself.
pub proof fn lemma_split_last(s: Seq<u8>)
    requires
        comps(s).len() > 0,
    ensures
        ({
            let u = trim_seps(s);
            let w = trim_comp(u);
            let c = u.skip(w.len() as int);
            &&& u.len() > 0
            &&& is_component(c)
            &&& comps(s) == comps(w).push(c)
            &&& comps(w) == comps(s).drop_last()
            &&& comps(s).last() == c
        }),
{
    let u = trim_seps(s);
    lemma_trim_seps_facts(s);
    lemma_comps_empty_iff(u);
    assert(u.len() > 0);
    let w = trim_comp(u);
    lemma_trim_comp_facts(u);
    let c = u.skip(w.len() as int);
    assert(u =~= w + c);
    assert(c.len() > 0);
    assert(is_component(c));
    lemma_comps_component(c);
    if w.len() == 0 {
        assert(w + c =~= c);
        assert(comps(u) =~= Seq::<Seq<u8>>::empty().push(c));
        assert(comps(w) =~= Seq::<Seq<u8>>::empty());
    } else {
        lemma_comps_sep_concat(w, c);
        assert(comps(u) =~= comps(w).push(c));
    }
    assert(comps(u).drop_last() =~= comps(w));
}

/// The rendering of well-formed components: it parses back to exactly
/// those components, is absolute as asked, ends on a non-separator, and is
/// canonical.
pub proof fn lemma_joined_comps(cs: Seq<Seq<u8>>)
    requires
        forall|k: int| 0 <= k < cs.len() ==> #[trigger] is_component(cs[k]),
    ensures
        comps(joined(cs)) == cs,
        cs.len() > 0 ==> joined(cs).len() > 0 && joined(cs)[joined(cs).len() - 1] != SEP,
        cs.len() == 0 ==> joined(cs).len() == 0,
        joined(cs).len() > 0 ==> joined(cs)[0] != SEP,
    decreases cs.len(),
{
    if cs.len() == 0 {
    } else if cs.len() == 1 {
        assert(is_component(cs[0]));
        lemma_comps_component(cs[0]);
        assert(comps(joined(cs)) =~= cs);
    } else {
        assert(is_component(cs[0]));
        lemma_joined_comps(cs.skip(1));
        lemma_comps_concat_sep(cs[0], joined(cs.skip(1)));
        lemma_comps_component(cs[0]);
        assert(comps(joined(cs)) =~= seq![cs[0]] + cs.skip(1));
        assert(seq![cs[0]] + cs.skip(1) =~= cs);
        assert(joined(cs)[joined(cs).len() - 1] == joined(cs.skip(1))[joined(cs.skip(1)).len()
            - 1]);
        assert(joined(cs)[0] == cs[0][0]);
    }
}

/// Rendered paths are canonical.
pub proof fn lemma_render_facts(abs: bool, cs: Seq<Seq<u8>>)
    requires
        forall|k: int| 0 <= k < cs.len() ==> #[trigger] is_component(cs[k]),
    ensures
        comps(render(abs, cs)) == cs,
        abs_of(render(abs, cs)) == abs,
        normalized(render(abs, cs)),
{
    lemma_joined_comps(cs);
    let r = render(abs, cs);
    if abs {
        assert(r =~= Seq::<u8>::empty() + seq![SEP] + joined(cs));
        lemma_comps_concat_sep(Seq::<u8>::empty(), joined(cs));
        assert(comps(Seq::<u8>::empty()) == Seq::<Seq<u8>>::empty());
        assert(comps(r) =~= comps(joined(cs)));
        assert(r[0] == SEP);
    } else {
        assert(r =~= joined(cs));
        if r.len() > 0 {
            assert(r[0] != SEP);
        }
    }
    assert(render(abs_of(r), comps(r)) == r);
}

/// A normalized path that ends on the separator is the bare root.
pub proof fn lemma_normalized_trailing_sep(s: Seq<u8>)
    requires
        normalized(s),
        s.len() > 0,
        s[s.len() - 1] == SEP,
    ensures
        s == seq![SEP],
{
    lemma_comps_are_components(s);
    lemma_joined_comps(comps(s));
    if comps(s).len() > 0 {
        if abs_of(s) {
            assert(s[s.len() - 1] == joined(comps(s))[joined(comps(s)).len() - 1]);
        } else {
            assert(s[s.len() - 1] == joined(comps(s))[joined(comps(s)).len() - 1]);
        }
        assert(false);
    }
    assert(abs_of(s));
    assert(s =~= seq![SEP] + Seq::<u8>::empty());
    assert(s =~= seq![SEP]);
}

/// Keeping the root alive does not change the components.
pub proof fn lemma_comps_trim_root(w: Seq<u8>)
    ensures
        comps(trim_root(w)) == comps(w),
{
    if w.len() > 0 && w[w.len() - 1] == SEP {
        lemma_trim_seps_facts(w);
        if trim_seps(w).len() == 0 {
            assert(comps(trim_seps(w)) == comps(w));
            assert(comps(Seq::<u8>::empty()) == Seq::<Seq<u8>>::empty());
            lemma_comps_empty_iff(seq![SEP]);
        }
    }
}

/// Dropping `.`s distributes over concatenation.
pub proof fn lemma_drop_dots_concat(a: Seq<Seq<u8>>, b: Seq<Seq<u8>>)
    ensures
        drop_dots(a + b) == drop_dots(a) + drop_dots(b),
    decreases a.len(),
{
    if a.len() == 0 {
        assert(a + b =~= b);
        assert(drop_dots(a) + drop_dots(b) =~= drop_dots(b));
    } else {
        assert((a + b)[0] == a[0]);
        assert((a + b).skip(1) =~= a.skip(1) + b);
        lemma_drop_dots_concat(a.skip(1), b);
        if !is_dot(a[0]) {
            assert(seq![a[0]] + (drop_dots(a.skip(1)) + drop_dots(b)) =~= (seq![a[0]] + drop_dots(
                a.skip(1),
            )) + drop_dots(b));
        }
    }
}

/// A list without `.`s is left alone.
pub proof fn lemma_drop_dots_none(cs: Seq<Seq<u8>>)
    requires
        forall|k: int| 0 <= k < cs.len() ==> !is_dot(#[trigger] cs[k]),
    ensures
        drop_dots(cs) == cs,
    decreases cs.len(),
{
    if cs.len() > 0 {
        assert(!is_dot(cs[0]));
        lemma_drop_dots_none(cs.skip(1));
        assert(seq![cs[0]] + cs.skip(1) =~= cs);
    }
}

/// Appending a component other than `.` appends it to the platform view.
pub proof fn lemma_norm_push(cs: Seq<Seq<u8>>, c: Seq<u8>, abs: bool)
    requires
        !is_dot(c),
    ensures
        norm_of(cs.push(c), abs) == norm_of(cs, abs).push(c),
{
    assert(cs.push(c) =~= cs + seq![c]);
    lemma_drop_dots_concat(cs, seq![c]);
    assert(seq![c].skip(1) =~= Seq::<Seq<u8>>::empty());
    assert(drop_dots(Seq::<Seq<u8>>::empty()) == Seq::<Seq<u8>>::empty());
    assert(drop_dots(seq![c]) =~= seq![c]);
    if cs.len() == 0 {
        assert(cs.push(c)[0] == c);
        assert(drop_dots(cs) =~= Seq::<Seq<u8>>::empty());
        assert(drop_dots(cs) + seq![c] =~= norm_of(cs, abs).push(c));
    } else {
        assert(cs.push(c)[0] == cs[0]);
        assert(cs.push(c).skip(1) =~= cs.skip(1) + seq![c]);
        lemma_drop_dots_concat(cs.skip(1), seq![c]);
        if !abs && is_dot(cs[0]) {
            assert(seq![cs[0]] + (drop_dots(cs.skip(1)) + seq![c]) =~= (seq![cs[0]] + drop_dots(
                cs.skip(1),
            )).push(c));
        } else {
            assert(drop_dots(cs) + seq![c] =~= drop_dots(cs).push(c));
        }
    }
}

/// Appending a `.` leaves the platform view alone, except that a bare
/// relative `.` stands for the current directory.
pub proof fn lemma_norm_push_dot(cs: Seq<Seq<u8>>, c: Seq<u8>, abs: bool)
    requires
        is_dot(c),
    ensures
        norm_of(cs.push(c), abs) == if cs.len() == 0 && !abs {
            seq![c]
        } else {
            norm_of(cs, abs)
        },
{
    assert(cs.push(c) =~= cs + seq![c]);
    assert(seq![c].skip(1) =~= Seq::<Seq<u8>>::empty());
    assert(drop_dots(Seq::<Seq<u8>>::empty()) == Seq::<Seq<u8>>::empty());
    assert(drop_dots(seq![c]) =~= Seq::<Seq<u8>>::empty());
    lemma_drop_dots_concat(cs, seq![c]);
    assert(drop_dots(cs + seq![c]) =~= drop_dots(cs));
    if cs.len() == 0 {
        assert(cs.push(c)[0] == c);
        if !abs {
            assert(cs.push(c).skip(1) =~= Seq::<Seq<u8>>::empty());
            assert(norm_of(cs.push(c), abs) =~= seq![c]);
        }
    } else {
        assert(cs.push(c)[0] == cs[0]);
        if !abs && is_dot(cs[0]) {
            assert(cs.push(c).skip(1) =~= cs.skip(1) + seq![c]);
            lemma_drop_dots_concat(cs.skip(1), seq![c]);
            assert(drop_dots(cs.push(c).skip(1)) =~= drop_dots(cs.skip(1)));
        }
    }
}

/// Every element of the platform view is a well-formed component.
pub proof fn lemma_drop_dots_components(cs: Seq<Seq<u8>>)
    requires
        forall|k: int| 0 <= k < cs.len() ==> #[trigger] is_component(cs[k]),
    ensures
        forall|k: int| 0 <= k < drop_dots(cs).len() ==> #[trigger] is_component(drop_dots(cs)[k]),
    decreases cs.len(),
{
    if cs.len() > 0 {
        assert(is_component(cs[0]));
        lemma_drop_dots_components(cs.skip(1));
        let r = drop_dots(cs);
        if !is_dot(cs[0]) {
            assert forall|k: int| 0 <= k < r.len() implies #[trigger] is_component(r[k]) by {
                if k == 0 {
                    assert(r[k] == cs[0]);
                } else {
                    assert(r[k] == drop_dots(cs.skip(1))[k - 1]);
                }
            }
        } else {
            assert forall|k: int| 0 <= k < r.len() implies #[trigger] is_component(r[k]) by {
                assert(r[k] == drop_dots(cs.skip(1))[k]);
            }
        }
    }
}

/// Every platform component of a path is a well-formed component.
pub proof fn lemma_norm_comps_are_components(s: Seq<u8>)
    ensures
        forall|k: int| 0 <= k < norm_comps(s).len() ==> #[trigger] is_component(norm_comps(s)[k]),
{
    lemma_comps_are_components(s);
    lemma_drop_dots_components(comps(s));
    let cs = comps(s);
    if !abs_of(s) && cs.len() > 0 && is_dot(cs[0]) {
        assert(forall|k: int| 0 <= k < cs.skip(1).len() ==> #[trigger] is_component(cs.skip(1)[k]));
        lemma_drop_dots_components(cs.skip(1));
        let r = norm_comps(s);
        assert forall|k: int| 0 <= k < r.len() implies #[trigger] is_component(r[k]) by {
            if k == 0 {
                assert(r[k] == cs[0]);
                assert(is_component(cs[0]));
            } else {
                assert(r[k] == drop_dots(cs.skip(1))[k - 1]);
            }
        }
    }
}

/// The file name is blind to a final `.` component: it looks past it.
pub proof fn lemma_file_name_skip_dot(s1: Seq<u8>, s2: Seq<u8>, c: Seq<u8>)
    requires
        is_dot(c),
        comps(s1) == comps(s2).push(c),
        abs_of(s1) == abs_of(s2),
    ensures
        file_name_spec(s1) == file_name_spec(s2),
{
    lemma_norm_push_dot(comps(s2), c, abs_of(s1));
    if comps(s2).len() == 0 && !abs_of(s1) {
        assert(norm_comps(s1) =~= seq![c]);
        assert(is_dot(norm_comps(s1).last()));
        assert(drop_dots(Seq::<Seq<u8>>::empty()) == Seq::<Seq<u8>>::empty());
        assert(norm_comps(s2).len() == 0);
    } else {
        assert(norm_comps(s1) == norm_comps(s2));
    }
}

/// Joining one more component appends a separator and the component.
pub proof fn lemma_joined_push(xs: Seq<Seq<u8>>, x: Seq<u8>)
    ensures
        joined(xs.push(x)) == if xs.len() == 0 {
            x
        } else {
            joined(xs) + seq![SEP] + x
        },
    decreases xs.len(),
{
    if xs.len() == 0 {
        assert(xs.push(x) =~= seq![x]);
    } else if xs.len() == 1 {
        assert(xs.push(x)[0] == xs[0]);
        assert(xs.push(x).skip(1) =~= seq![x]);
        assert(joined(seq![x]) == x);
    } else {
        assert(xs.push(x)[0] == xs[0]);
        assert(xs.push(x).skip(1) =~= xs.skip(1).push(x));
        lemma_joined_push(xs.skip(1), x);
        assert(xs[0] + seq![SEP] + (joined(xs.skip(1)) + seq![SEP] + x) =~= (xs[0] + seq![SEP]
            + joined(xs.skip(1))) + seq![SEP] + x);
    }
}

// ------------------------------------------------------------------
// Laws.

/// Pushing a component onto a canonical path and popping again restores
/// the original bytes exactly.
pub proof fn lemma_push_pop_inverse(p: Seq<u8>, c: Seq<u8>)
    requires
        normalized(p),
        is_component(c),
    ensures
        comps(push_spec(p, c)).len() > 0,
        pop_spec(push_spec(p, c)) == p,
{
    let q = push_spec(p, c);
    assert(!abs_of(c));
    lemma_comps_component(c);
    if p.len() == 0 {
        assert(q == c);
        assert(trim_seps(q) == q);
        lemma_trim_comp_append(Seq::<u8>::empty(), c);
        assert(Seq::<u8>::empty() + c =~= c);
        assert(trim_comp(Seq::<u8>::empty()) == Seq::<u8>::empty());
        assert(trim_root(Seq::<u8>::empty()) == Seq::<u8>::empty());
        assert(pop_spec(q) =~= p);
    } else if p[p.len() - 1] == SEP {
        lemma_normalized_trailing_sep(p);
        assert(q =~= p + c);
        lemma_comps_sep_concat(p, c);
        assert(comps(q).len() > 0);
        assert(q[q.len() - 1] == c[c.len() - 1]);
        assert(trim_seps(q) == q);
        lemma_trim_comp_append(p, c);
        assert(trim_comp(p) == p);
        assert(p.drop_last() =~= Seq::<u8>::empty());
        assert(trim_seps(Seq::<u8>::empty()) == Seq::<u8>::empty());
        assert(trim_seps(p).len() == 0);
        assert(trim_root(p) =~= seq![SEP]);
        assert(pop_spec(q) == p);
    } else {
        assert(q == p + seq![SEP] + c);
        lemma_comps_concat_sep(p, c);
        assert(comps(q).len() > 0);
        assert(q[q.len() - 1] == c[c.len() - 1]);
        assert(trim_seps(q) == q);
        lemma_trim_comp_append(p + seq![SEP], c);
        assert((p + seq![SEP])[(p + seq![SEP]).len() - 1] == SEP);
        assert(trim_comp(p + seq![SEP]) == p + seq![SEP]);
        assert((p + seq![SEP]).drop_last() =~= p);
        assert(trim_seps(p + seq![SEP]) == trim_seps(p));
        assert(trim_seps(p) == p);
        assert(trim_root(p + seq![SEP]) == p);
        assert(pop_spec(q) == p);
    }
}

/// Joining a relative canonical path `b` free of `.` components onto any
/// path `a` and stripping `a` again yields exactly `b`.
pub proof fn lemma_join_strip_prefix(a: Seq<u8>, b: Seq<u8>)
    requires
        !abs_of(b),
        normalized(b),
        forall|k: int| 0 <= k < comps(b).len() ==> !is_dot(#[trigger] comps(b)[k]),
    ensures
        strip_prefix_spec(push_spec(a, b), a) == Some(b),
{
    let q = push_spec(a, b);
    if a.len() == 0 {
        assert(q == b);
        assert(abs_of(q) == abs_of(a));
        assert(comps(a) == Seq::<Seq<u8>>::empty());
        assert(comps(q) == comps(a) + comps(b)) by {
            assert(comps(a) + comps(b) =~= comps(b));
        }
    } else if a[a.len() - 1] == SEP {
        assert(q =~= a + b);
        lemma_comps_sep_concat(a, b);
        assert(q[0] == a[0]);
        assert(abs_of(q) == abs_of(a));
    } else {
        assert(q == a + seq![SEP] + b);
        lemma_comps_concat_sep(a, b);
        assert(q[0] == a[0]);
        assert(abs_of(q) == abs_of(a));
    }
    // the platform view of the joined path is the platform view of `a`
    // followed by the components of `b` unchanged
    lemma_drop_dots_none(comps(b));
    lemma_drop_dots_concat(comps(a), comps(b));
    let abs = abs_of(a);
    if comps(a).len() == 0 {
        assert(comps(q) =~= comps(b));
        if comps(b).len() > 0 {
            assert(!is_dot(comps(b)[0]));
        }
        assert(norm_comps(q) == drop_dots(comps(b)));
        assert(norm_comps(a) =~= Seq::<Seq<u8>>::empty());
        assert(norm_comps(q) =~= norm_comps(a) + comps(b));
    } else {
        assert(comps(q)[0] == comps(a)[0]);
        if !abs && is_dot(comps(a)[0]) {
            assert(comps(q).skip(1) =~= comps(a).skip(1) + comps(b));
            lemma_drop_dots_concat(comps(a).skip(1), comps(b));
            assert(norm_comps(q) =~= (seq![comps(a)[0]] + drop_dots(comps(a).skip(1)))
                + comps(b));
            assert(norm_comps(q) =~= norm_comps(a) + comps(b));
        } else {
            assert(norm_comps(q) =~= norm_comps(a) + comps(b));
        }
    }
    assert(norm_comps(a).is_prefix_of(norm_comps(q))) by {
        assert(norm_comps(q).subrange(0, norm_comps(a).len() as int) =~= norm_comps(a));
    }
    assert(norm_comps(q).skip(norm_comps(a).len() as int) =~= comps(b));
    assert(render(false, comps(b)) == b);
}

/// The parent of a bare relative component is the absent marker — not a
/// present-but-empty path, which a caller can tell apart.
pub proof fn lemma_parent_single_relative(s: Seq<u8>)
    requires
        !abs_of(s),
        comps(s).len() == 1,
    ensures
        parent_spec(s) == None::<Seq<u8>>,
        parent_spec(s) != Some(Seq::<u8>::empty()),
{
}

// ------------------------------------------------------------------
// UTF-8 closure of the component model.

proof fn lemma_split_valid(s: Seq<u8>, cur: Seq<u8>)
    requires
        valid_utf8(cur + s),
        forall|i: int| 0 <= i < cur.len() ==> cur[i] != SEP,
    ensures
        forall|k: int|
            0 <= k < split_comps(s, cur).len() ==> #[trigger] valid_utf8(split_comps(s, cur)[k]),
    decreases s.len(),
{
    let r = split_comps(s, cur);
    if s.len() == 0 {
        assert(cur + s =~= cur);
        if cur.len() > 0 {
            assert(r =~= seq![cur]);
        }
    } else if s[0] == SEP {
        assert((cur + s)[cur.len() as int] == SEP);
        lemma_valid_utf8_cut(cur + s, cur.len() as int);
        assert((cur + s).take(cur.len() as int) =~= cur);
        assert((cur + s).skip(cur.len() as int) =~= s);
        lemma_valid_utf8_cut(s, 1);
        assert(Seq::<u8>::empty() + s.skip(1) =~= s.skip(1));
        lemma_split_valid(s.skip(1), Seq::empty());
        let rest = split_comps(s.skip(1), Seq::<u8>::empty());
        assert forall|k: int| 0 <= k < r.len() implies #[trigger] valid_utf8(r[k]) by {
            if k < emit(cur).len() {
                assert(r[k] == cur);
            } else {
                assert(r[k] == rest[k - emit(cur).len()]);
            }
        }
    } else {
        assert(cur.push(s[0]) + s.skip(1) =~= cur + s);
        assert(forall|i: int| 0 <= i < cur.push(s[0]).len() ==> cur.push(s[0])[i] != SEP);
        lemma_split_valid(s.skip(1), cur.push(s[0]));
        assert(r == split_comps(s.skip(1), cur.push(s[0])));
        assert forall|k: int| 0 <= k < r.len() implies #[trigger] valid_utf8(r[k]) by {
            assert(valid_utf8(split_comps(s.skip(1), cur.push(s[0]))[k]));
        }
    }
}

/// Every component of well-formed text is well-formed text.
pub proof fn lemma_comps_valid(s: Seq<u8>)
    requires
        valid_utf8(s),
    ensures
        forall|k: int| 0 <= k < comps(s).len() ==> #[trigger] valid_utf8(comps(s)[k]),
{
    assert(Seq::<u8>::empty() + s =~= s);
    lemma_split_valid(s, Seq::empty());
}

/// Joining well-formed components yields well-formed text.
pub proof fn lemma_joined_valid(cs: Seq<Seq<u8>>)
    requires
        forall|k: int| 0 <= k < cs.len() ==> #[trigger] valid_utf8(cs[k]),
    ensures
        valid_utf8(joined(cs)),
    decreases cs.len(),
{
    if cs.len() == 0 {
    } else if cs.len() == 1 {
    } else {
        lemma_joined_valid(cs.skip(1));
        crate::utf8::lemma_valid_ascii_singleton(SEP);
        lemma_valid_utf8_concat(cs[0], seq![SEP]);
        lemma_valid_utf8_concat(cs[0] + seq![SEP], joined(cs.skip(1)));
        assert(cs[0] + seq![SEP] + joined(cs.skip(1)) == joined(cs));
    }
}

/// A present strip-prefix result is canonical and relative: it can be
/// joined back on without surprises.
pub proof fn lemma_strip_prefix_normalized(s: Seq<u8>, pre: Seq<u8>)
    requires
        strip_prefix_spec(s, pre) is Some,
    ensures
        normalized(strip_prefix_spec(s, pre).unwrap()),
        !abs_of(strip_prefix_spec(s, pre).unwrap()),
{
    let rest = norm_comps(s).skip(norm_comps(pre).len() as int);
    lemma_norm_comps_are_components(s);
    assert forall|k: int| 0 <= k < rest.len() implies #[trigger] is_component(rest[k]) by {
        assert(rest[k] == norm_comps(s)[k + norm_comps(pre).len()]);
        assert(is_component(norm_comps(s)[k + norm_comps(pre).len()]));
    }
    lemma_render_facts(false, rest);
}

} // verus!
