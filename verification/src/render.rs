//! Deterministic HTML rendering of a directory listing.
//!
//! A listing is one anchor per entry, separated by `<br>`. The first anchor
//! always leads to the parent of the listed directory (or to the root when
//! the root itself is listed); the remaining anchors are the directory's
//! children in case-sensitive lexicographic order of their names. Entry
//! names are escaped so that no name can break out of the markup, and every
//! link is expressed relative to the serving root, never to the filesystem.

use vstd::prelude::*;

use crate::path::{views_of, plain_segment, SLASH, DOT};

verus! {

/// Byte value of `&`.
pub const AMP: u8 = 38;

/// Byte value of `<`.
pub const LT: u8 = 60;

/// Byte value of `>`.
pub const GT: u8 = 62;

/// Byte value of `"`.
pub const QUOT: u8 = 34;

/// The bytes of `<a href="`.
pub open spec fn anchor_open() -> Seq<u8> {
    seq![60u8, 97u8, 32u8, 104u8, 114u8, 101u8, 102u8, 61u8, 34u8]
}

/// The bytes of `">`.
pub open spec fn anchor_mid() -> Seq<u8> {
    seq![34u8, 62u8]
}

/// The bytes of `</a>`.
pub open spec fn anchor_close() -> Seq<u8> {
    seq![60u8, 47u8, 97u8, 62u8]
}

/// The bytes of `<br>`.
pub open spec fn br_sep() -> Seq<u8> {
    seq![60u8, 98u8, 114u8, 62u8]
}

/// What a single byte becomes in escaped text: the four markup-significant
/// bytes turn into their character references, every other byte stays.
pub open spec fn escape_byte(b: u8) -> Seq<u8> {
    if b == AMP {
        seq![38u8, 97u8, 109u8, 112u8, 59u8]
    } else if b == LT {
        seq![38u8, 108u8, 116u8, 59u8]
    } else if b == GT {
        seq![38u8, 103u8, 116u8, 59u8]
    } else if b == QUOT {
        seq![38u8, 113u8, 117u8, 111u8, 116u8, 59u8]
    } else {
        seq![b]
    }
}

/// Byte-wise escaping of a whole name.
pub open spec fn escape_spec(s: Seq<u8>) -> Seq<u8>
    decreases s.len(),
{
    if s.len() == 0 {
        Seq::<u8>::empty()
    } else {
        escape_spec(s.drop_last()) + escape_byte(s.last())
    }
}

/// Escaped text can no longer break the markup: no raw `<`, `>` or `"`
/// survives escaping, whatever bytes a name holds.
pub proof fn lemma_escape_no_markup(s: Seq<u8>)
    ensures
        forall|i: int| 0 <= i < escape_spec(s).len() ==> (#[trigger] escape_spec(s)[i]) != LT
            && escape_spec(s)[i] != GT && escape_spec(s)[i] != QUOT,
    decreases s.len(),
{
    if s.len() > 0 {
        lemma_escape_no_markup(s.drop_last());
        let pre = escape_spec(s.drop_last());
        let add = escape_byte(s.last());
        assert forall|i: int| 0 <= i < escape_spec(s).len() implies (#[trigger] escape_spec(
            s,
        )[i]) != LT && escape_spec(s)[i] != GT && escape_spec(s)[i] != QUOT by {
            if i < pre.len() {
                assert(escape_spec(s)[i] == pre[i]);
            } else {
                assert(escape_spec(s)[i] == add[i - pre.len()]);
            }
        }
    }
}

/// Segments joined with single separators, no leading or trailing one.
pub open spec fn join_segs(segs: Seq<Seq<u8>>) -> Seq<u8>
    decreases segs.len(),
{
    if segs.len() == 0 {
        Seq::<u8>::empty()
    } else if segs.len() == 1 {
        segs[0]
    } else {
        join_segs(segs.drop_last()) + seq![SLASH] + segs.last()
    }
}

/// The root-relative URL of a path: `/` followed by its joined segments.
pub open spec fn href_spec(segs: Seq<Seq<u8>>) -> Seq<u8> {
    seq![SLASH] + join_segs(segs)
}

/// True when `s` never holds two adjacent separators.
pub open spec fn no_double_slash(s: Seq<u8>) -> bool {
    forall|i: int| 0 <= i && i + 1 < s.len() ==> !((#[trigger] s[i]) == SLASH && s[i + 1] == SLASH)
}

/// Joined plain segments neither start nor end with a separator and never
/// hold two adjacent ones.
pub proof fn lemma_join_well_formed(segs: Seq<Seq<u8>>)
    requires
        forall|i: int| 0 <= i < segs.len() ==> plain_segment(#[trigger] segs[i]),
    ensures
        no_double_slash(join_segs(segs)),
        join_segs(segs).len() > 0 ==> join_segs(segs)[0] != SLASH,
        join_segs(segs).len() > 0 ==> join_segs(segs).last() != SLASH,
    decreases segs.len(),
{
    if segs.len() == 0 {
    } else if segs.len() == 1 {
        assert(plain_segment(segs[0]));
    } else {
        let p = segs.drop_last();
        let w = segs.last();
        assert forall|i: int| 0 <= i < p.len() implies plain_segment(#[trigger] p[i]) by {
            assert(p[i] == segs[i]);
        }
        lemma_join_well_formed(p);
        assert(plain_segment(segs[segs.len() - 1]));
        let jp = join_segs(p);
        let full = jp + seq![SLASH] + w;
        assert(jp.len() > 0) by {
            if p.len() == 1 {
                assert(plain_segment(p[0]));
            }
        }
        assert(full.last() == w.last());
        assert(full[0] == jp[0]);
        assert forall|i: int| 0 <= i && i + 1 < full.len() implies !((#[trigger] full[i]) == SLASH
            && full[i + 1] == SLASH) by {
            if i + 1 < jp.len() {
                assert(full[i] == jp[i] && full[i + 1] == jp[i + 1]);
            } else if i + 1 == jp.len() {
                assert(full[i] == jp[i] && full[i + 1] == SLASH);
                assert(jp[i] == jp.last());
            } else if i == jp.len() {
                assert(full[i] == SLASH && full[i + 1] == w[0]);
            } else {
                assert(full[i] == w[i - jp.len() - 1] && full[i + 1] == w[i - jp.len()]);
            }
        }
    }
}

/// A root-relative URL starts with exactly one separator and never holds two
/// adjacent ones; it is built from the segments alone, so no filesystem
/// prefix can appear in it.
pub proof fn lemma_href_well_formed(segs: Seq<Seq<u8>>)
    requires
        forall|i: int| 0 <= i < segs.len() ==> plain_segment(#[trigger] segs[i]),
    ensures
        href_spec(segs).len() >= 1,
        href_spec(segs)[0] == SLASH,
        no_double_slash(href_spec(segs)),
{
    lemma_join_well_formed(segs);
    let h = href_spec(segs);
    let j = join_segs(segs);
    assert forall|i: int| 0 <= i && i + 1 < h.len() implies !((#[trigger] h[i]) == SLASH && h[i + 1]
        == SLASH) by {
        if i == 0 {
            assert(h[1] == j[0]);
        } else {
            assert(h[i] == j[i - 1] && h[i + 1] == j[i]);
        }
    }
}

/// Case-sensitive lexicographic order on byte strings: the order of the
/// first differing byte decides, and a prefix comes before every extension.
pub open spec fn lex_le(a: Seq<u8>, b: Seq<u8>) -> bool
    decreases a.len(),
{
    if a.len() == 0 {
        true
    } else if b.len() == 0 {
        false
    } else if a[0] < b[0] {
        true
    } else if a[0] > b[0] {
        false
    } else {
        lex_le(a.drop_first(), b.drop_first())
    }
}

/// Any two byte strings are ordered one way or the other.
pub proof fn lemma_lex_total(a: Seq<u8>, b: Seq<u8>)
    ensures
        lex_le(a, b) || lex_le(b, a),
    decreases a.len(),
{
    if a.len() > 0 && b.len() > 0 && a[0] == b[0] {
        lemma_lex_total(a.drop_first(), b.drop_first());
    }
}

/// Strings that agree on their first `i` bytes compare as their tails do.
pub proof fn lemma_lex_skip(a: Seq<u8>, b: Seq<u8>, i: int)
    requires
        0 <= i <= a.len(),
        i <= b.len(),
        forall|j: int| 0 <= j < i ==> a[j] == b[j],
    ensures
        lex_le(a, b) == lex_le(a.skip(i), b.skip(i)),
    decreases i,
{
    if i > 0 {
        lemma_lex_skip(a.drop_first(), b.drop_first(), i - 1);
        assert(a.drop_first().skip(i - 1) =~= a.skip(i));
        assert(b.drop_first().skip(i - 1) =~= b.skip(i));
    } else {
        assert(a.skip(0) =~= a);
        assert(b.skip(0) =~= b);
    }
}

/// Decides the lexicographic order of two byte strings.
pub fn lex_le_bytes(a: &Vec<u8>, b: &Vec<u8>) -> (r: bool)
    ensures
        r == lex_le(a@, b@),
{
    let mut i: usize = 0;
    loop
        invariant
            i <= a.len(),
            i <= b.len(),
            forall|j: int| 0 <= j < i ==> a@[j] == b@[j],
        decreases a.len() - i,
    {
        if i == a.len() {
            proof {
                lemma_lex_skip(a@, b@, i as int);
                assert(a@.skip(i as int).len() == 0);
            }
            return true;
        }
        if i == b.len() {
            proof {
                lemma_lex_skip(a@, b@, i as int);
                assert(b@.skip(i as int).len() == 0);
                assert(a@.skip(i as int).len() > 0);
            }
            return false;
        }
        let x = a[i];
        let y = b[i];
        if x != y {
            proof {
                lemma_lex_skip(a@, b@, i as int);
                assert(a@.skip(i as int)[0] == a@[i as int]);
                assert(b@.skip(i as int)[0] == b@[i as int]);
            }
            return x < y;
        }
        i += 1;
    }
}

/// Where a new name lands in an already ordered run: before the first entry
/// that does not come before it.
pub open spec fn insert_sorted(x: Seq<u8>, s: Seq<Seq<u8>>) -> Seq<Seq<u8>>
    decreases s.len(),
{
    if s.len() == 0 {
        seq![x]
    } else if lex_le(x, s[0]) {
        seq![x] + s
    } else {
        seq![s[0]] + insert_sorted(x, s.drop_first())
    }
}

/// The ordered arrangement of a sequence of names, one insertion at a time.
pub open spec fn sort_spec(s: Seq<Seq<u8>>) -> Seq<Seq<u8>>
    decreases s.len(),
{
    if s.len() == 0 {
        Seq::<Seq<u8>>::empty()
    } else {
        insert_sorted(s.last(), sort_spec(s.drop_last()))
    }
}

/// True when the names stand in lexicographic order.
pub open spec fn sorted_names(s: Seq<Seq<u8>>) -> bool {
    forall|i: int, j: int| 0 <= i < j < s.len() ==> lex_le(s[i], s[j])
}

/// Inserting into an ordered run keeps it ordered, adds exactly the new
/// name, and keeps every lower bound that also bounds the new name.
pub proof fn lemma_insert_sorted(x: Seq<u8>, s: Seq<Seq<u8>>)
    requires
        sorted_names(s),
    ensures
        sorted_names(insert_sorted(x, s)),
        insert_sorted(x, s).len() == s.len() + 1,
        insert_sorted(x, s).to_multiset() == s.to_multiset().insert(x),
        forall|lo: Seq<u8>|
            (lex_le(lo, x) && (forall|i: int| 0 <= i < s.len() ==> lex_le(lo, #[trigger] s[i])))
                ==> (forall|i: int|
                0 <= i < insert_sorted(x, s).len() ==> lex_le(
                    lo,
                    #[trigger] insert_sorted(x, s)[i],
                )),
    decreases s.len(),
{
    broadcast use vstd::seq_lib::group_to_multiset_ensures;
    broadcast use vstd::multiset::group_multiset_axioms;

    let out = insert_sorted(x, s);
    if s.len() == 0 {
        assert(s =~= Seq::<Seq<u8>>::empty());
        assert(out =~= Seq::<Seq<u8>>::empty().push(x));
        assert(out.to_multiset() == s.to_multiset().insert(x));
    } else if lex_le(x, s[0]) {
        assert(out == seq![x] + s);
        assert forall|i: int, j: int| 0 <= i < j < out.len() implies lex_le(out[i], out[j]) by {
            if i == 0 {
                assert(out[0] == x);
                assert(out[j] == s[j - 1]);
                if j > 1 {
                    assert(lex_le(s[0], s[j - 1]));
                    lemma_lex_trans(x, s[0], s[j - 1]);
                }
            } else {
                assert(out[i] == s[i - 1] && out[j] == s[j - 1]);
            }
        }
        vstd::seq_lib::lemma_multiset_commutative(seq![x], s);
        assert(seq![x] =~= Seq::<Seq<u8>>::empty().push(x));
        vstd::multiset::lemma_multiset_empty_len(Seq::<Seq<u8>>::empty().to_multiset());
        assert(out.to_multiset() =~= s.to_multiset().insert(x));
    } else {
        lemma_lex_total(x, s[0]);
        let rest = s.drop_first();
        assert forall|i: int, j: int| 0 <= i < j < rest.len() implies lex_le(rest[i], rest[j]) by {
            assert(rest[i] == s[i + 1] && rest[j] == s[j + 1]);
        }
        lemma_insert_sorted(x, rest);
        let sub = insert_sorted(x, rest);
        assert(out == seq![s[0]] + sub);
        assert forall|i: int| 0 <= i < rest.len() implies lex_le(s[0], #[trigger] rest[i]) by {
            assert(rest[i] == s[i + 1]);
        }
        assert(forall|i: int| 0 <= i < sub.len() ==> lex_le(s[0], #[trigger] sub[i]));
        assert forall|i: int, j: int| 0 <= i < j < out.len() implies lex_le(out[i], out[j]) by {
            if i == 0 {
                assert(out[j] == sub[j - 1]);
                assert(lex_le(s[0], sub[j - 1]));
            } else {
                assert(out[i] == sub[i - 1] && out[j] == sub[j - 1]);
            }
        }
        assert forall|lo: Seq<u8>|
            (lex_le(lo, x) && (forall|i: int| 0 <= i < s.len() ==> lex_le(lo, #[trigger] s[i])))
            implies (forall|i: int|
            0 <= i < out.len() ==> lex_le(lo, #[trigger] out[i])) by {
            assert(forall|i: int| 0 <= i < rest.len() ==> lex_le(lo, #[trigger] rest[i])) by {
                assert(forall|i: int| 0 <= i < rest.len() ==> rest[i] == s[i + 1]);
            }
            assert(forall|i: int| 0 <= i < sub.len() ==> lex_le(lo, #[trigger] sub[i]));
            assert forall|i: int| 0 <= i < out.len() implies lex_le(lo, #[trigger] out[i]) by {
                if i == 0 {
                    assert(out[0] == s[0]);
                } else {
                    assert(out[i] == sub[i - 1]);
                }
            }
        }
        vstd::seq_lib::lemma_multiset_commutative(seq![s[0]], sub);
        vstd::seq_lib::lemma_multiset_commutative(seq![s[0]], rest);
        assert(seq![s[0]] + rest =~= s);
        assert(seq![s[0]] =~= Seq::<Seq<u8>>::empty().push(s[0]));
        vstd::multiset::lemma_multiset_empty_len(Seq::<Seq<u8>>::empty().to_multiset());
        assert(out.to_multiset() =~= s.to_multiset().insert(x));
    }
}

/// The lexicographic order is transitive.
pub proof fn lemma_lex_trans(a: Seq<u8>, b: Seq<u8>, c: Seq<u8>)
    requires
        lex_le(a, b),
        lex_le(b, c),
    ensures
        lex_le(a, c),
    decreases a.len(),
{
    if a.len() > 0 && b.len() > 0 && c.len() > 0 {
        if a[0] == b[0] && b[0] == c[0] {
            lemma_lex_trans(a.drop_first(), b.drop_first(), c.drop_first());
        }
    }
}

/// The ordered arrangement holds the same names, each as often as before,
/// in lexicographic order.
pub proof fn lemma_sort_spec_ensures(s: Seq<Seq<u8>>)
    ensures
        sorted_names(sort_spec(s)),
        sort_spec(s).to_multiset() == s.to_multiset(),
        sort_spec(s).len() == s.len(),
    decreases s.len(),
{
    broadcast use vstd::seq_lib::group_to_multiset_ensures;

    if s.len() > 0 {
        lemma_sort_spec_ensures(s.drop_last());
        lemma_insert_sorted(s.last(), sort_spec(s.drop_last()));
        assert(s.drop_last().push(s.last()) =~= s);
        assert(sort_spec(s).to_multiset() == s.to_multiset());
    }
}

/// The anchor markup for one link.
pub open spec fn anchor_spec(href: Seq<u8>, label: Seq<u8>) -> Seq<u8> {
    anchor_open() + href + anchor_mid() + label + anchor_close()
}

/// The anchor of a child entry: its escaped root-relative URL and its
/// escaped name.
pub open spec fn entry_anchor_spec(dir: Seq<Seq<u8>>, name: Seq<u8>) -> Seq<u8> {
    anchor_spec(escape_spec(href_spec(dir.push(name))), escape_spec(name))
}

/// The anchor that leads one level up: to the parent of the listed
/// directory, or to the root when the root itself is listed.
pub open spec fn up_anchor_spec(dir: Seq<Seq<u8>>) -> Seq<u8> {
    anchor_spec(
        escape_spec(if dir.len() == 0 { href_spec(dir) } else { href_spec(dir.drop_last()) }),
        seq![DOT, DOT],
    )
}

/// Anchors joined with `<br>` between them.
pub open spec fn join_br(items: Seq<Seq<u8>>) -> Seq<u8>
    decreases items.len(),
{
    if items.len() == 0 {
        Seq::<u8>::empty()
    } else if items.len() == 1 {
        items[0]
    } else {
        join_br(items.drop_last()) + br_sep() + items.last()
    }
}

/// The anchors of the children, one per name, in the order given.
pub open spec fn entry_anchors_spec(dir: Seq<Seq<u8>>, sorted: Seq<Seq<u8>>) -> Seq<Seq<u8>> {
    sorted.map_values(|n: Seq<u8>| entry_anchor_spec(dir, n))
}

/// The whole listing of a directory: the up anchor first, then one anchor
/// per name in lexicographic order.
pub open spec fn listing_spec(dir: Seq<Seq<u8>>, names: Seq<Seq<u8>>) -> Seq<u8> {
    join_br(seq![up_anchor_spec(dir)] + entry_anchors_spec(dir, sort_spec(names)))
}

/// Appends the escaped form of `s`.
pub fn escape_into(out: &mut Vec<u8>, s: &Vec<u8>)
    ensures
        final(out)@ == old(out)@ + escape_spec(s@),
{
    let ghost base = out@;
    let mut i: usize = 0;
    proof {
        assert(s@.take(0) =~= Seq::<u8>::empty());
        assert(out@ =~= base + escape_spec(s@.take(0)));
    }
    while i < s.len()
        invariant
            i <= s.len(),
            out@ == base + escape_spec(s@.take(i as int)),
        decreases s.len() - i,
    {
        let ghost before = out@;
        proof {
            assert(s@.take(i as int + 1).drop_last() =~= s@.take(i as int));
            assert(s@.take(i as int + 1).last() == s@[i as int]);
        }
        let b = s[i];
        if b == AMP {
            out.push(38);
            out.push(97);
            out.push(109);
            out.push(112);
            out.push(59);
        } else if b == LT {
            out.push(38);
            out.push(108);
            out.push(116);
            out.push(59);
        } else if b == GT {
            out.push(38);
            out.push(103);
            out.push(116);
            out.push(59);
        } else if b == QUOT {
            out.push(38);
            out.push(113);
            out.push(117);
            out.push(111);
            out.push(116);
            out.push(59);
        } else {
            out.push(b);
        }
        proof {
            assert(out@ =~= before + escape_byte(s@[i as int]));
            assert(out@ =~= base + escape_spec(s@.take(i as int + 1)));
        }
        i += 1;
    }
    proof {
        assert(s@.take(s@.len() as int) =~= s@);
    }
}

/// Builds the root-relative URL of the first `count` segments.
pub fn href_prefix(segs: &Vec<Vec<u8>>, count: usize) -> (r: Vec<u8>)
    requires
        count <= segs@.len(),
    ensures
        r@ == href_spec(views_of(segs@).take(count as int)),
{
    let ghost d = views_of(segs@);
    let mut out: Vec<u8> = Vec::new();
    out.push(SLASH);
    proof {
        assert(d.take(0) =~= Seq::<Seq<u8>>::empty());
        assert(out@ =~= href_spec(d.take(0)));
    }
    let mut k: usize = 0;
    while k < count
        invariant
            k <= count,
            count <= segs@.len(),
            d == views_of(segs@),
            out@ == href_spec(d.take(k as int)),
        decreases count - k,
    {
        let ghost before = out@;
        proof {
            assert(d.take(k as int + 1).drop_last() =~= d.take(k as int));
            assert(d.take(k as int + 1).last() == d[k as int]);
            assert(d[k as int] == segs@[k as int]@);
        }
        if k > 0 {
            out.push(SLASH);
        }
        let seg = &segs[k];
        out.extend_from_slice(seg.as_slice());
        proof {
            if k == 0 {
                assert(out@ =~= href_spec(d.take(1)));
            } else {
                assert(out@ =~= before + seq![SLASH] + d[k as int]);
                assert(out@ =~= href_spec(d.take(k as int + 1)));
            }
        }
        k += 1;
    }
    out
}

/// Builds the root-relative URL of a child of `dir`.
pub fn entry_href(dir: &Vec<Vec<u8>>, name: &Vec<u8>) -> (r: Vec<u8>)
    ensures
        r@ == href_spec(views_of(dir@).push(name@)),
{
    let ghost d = views_of(dir@);
    let mut out = href_prefix(dir, dir.len());
    proof {
        assert(d.take(dir@.len() as int) =~= d);
    }
    if dir.len() > 0 {
        out.push(SLASH);
    }
    out.extend_from_slice(name.as_slice());
    proof {
        let p = d.push(name@);
        assert(p.drop_last() =~= d);
        assert(p.last() == name@);
        if d.len() == 0 {
            assert(out@ =~= href_spec(p));
        } else {
            assert(out@ =~= href_spec(p));
        }
    }
    out
}

/// Arranges names in case-sensitive lexicographic order.
pub fn sort_names(names: &Vec<Vec<u8>>) -> (r: Vec<Vec<u8>>)
    ensures
        views_of(r@) == sort_spec(views_of(names@)),
{
    let ghost gnames = views_of(names@);
    let mut out: Vec<Vec<u8>> = Vec::new();
    proof {
        assert(gnames.take(0) =~= Seq::<Seq<u8>>::empty());
        assert(views_of(out@) =~~= sort_spec(gnames.take(0)));
    }
    let mut i: usize = 0;
    while i < names.len()
        invariant
            i <= names.len(),
            gnames == views_of(names@),
            views_of(out@) == sort_spec(gnames.take(i as int)),
        decreases names.len() - i,
    {
        proof {
            assert(gnames.take(i as int + 1).drop_last() =~= gnames.take(i as int));
            assert(gnames.take(i as int + 1).last() == gnames[i as int]);
            assert(gnames[i as int] == names@[i as int]@);
        }
        let name = crate::path::copy_bytes(&names[i]);
        insert_name(&mut out, name);
        i += 1;
    }
    proof {
        assert(gnames.take(names@.len() as int) =~= gnames);
    }
    out
}

/// Inserts one name into an ordered run, keeping the run's arrangement
/// exactly as the specification places it.
fn insert_name(run: &mut Vec<Vec<u8>>, name: Vec<u8>)
    ensures
        views_of(final(run)@) == insert_sorted(name@, views_of(old(run)@)),
{
    let ghost s = views_of(run@);
    let ghost nv = name@;
    let pos = find_pos(run, &name);
    run.insert(pos, name);
    proof {
        lemma_insert_at(nv, s, pos as int);
        assert(views_of(run@) =~~= s.take(pos as int) + seq![nv] + s.skip(pos as int));
    }
}

/// The first index whose entry does not come before `name`.
fn find_pos(run: &Vec<Vec<u8>>, name: &Vec<u8>) -> (pos: usize)
    ensures
        pos <= run@.len(),
        forall|k: int| 0 <= k < pos ==> !lex_le(name@, #[trigger] views_of(run@)[k]),
        pos < run@.len() ==> lex_le(name@, views_of(run@)[pos as int]),
{
    let mut j: usize = 0;
    while j < run.len()
        invariant
            j <= run.len(),
            forall|k: int| 0 <= k < j ==> !lex_le(name@, #[trigger] views_of(run@)[k]),
        decreases run.len() - j,
    {
        if lex_le_bytes(name, &run[j]) {
            proof {
                assert(views_of(run@)[j as int] == run@[j as int]@);
            }
            return j;
        }
        proof {
            assert(views_of(run@)[j as int] == run@[j as int]@);
        }
        j += 1;
    }
    j
}

/// Appends the bytes of `<a href="`.
fn push_anchor_open(out: &mut Vec<u8>)
    ensures
        final(out)@ == old(out)@ + anchor_open(),
{
    out.push(60);
    out.push(97);
    out.push(32);
    out.push(104);
    out.push(114);
    out.push(101);
    out.push(102);
    out.push(61);
    out.push(34);
    proof {
        assert(out@ =~= old(out)@ + anchor_open());
    }
}

/// Appends the bytes of `">`.
fn push_anchor_mid(out: &mut Vec<u8>)
    ensures
        final(out)@ == old(out)@ + anchor_mid(),
{
    out.push(34);
    out.push(62);
    proof {
        assert(out@ =~= old(out)@ + anchor_mid());
    }
}

/// Appends the bytes of `</a>`.
fn push_anchor_close(out: &mut Vec<u8>)
    ensures
        final(out)@ == old(out)@ + anchor_close(),
{
    out.push(60);
    out.push(47);
    out.push(97);
    out.push(62);
    proof {
        assert(out@ =~= old(out)@ + anchor_close());
    }
}

/// Appends the bytes of `<br>`.
fn push_br(out: &mut Vec<u8>)
    ensures
        final(out)@ == old(out)@ + br_sep(),
{
    out.push(60);
    out.push(98);
    out.push(114);
    out.push(62);
    proof {
        assert(out@ =~= old(out)@ + br_sep());
    }
}

/// Renders the listing of the directory `dir` whose children bear `names`:
/// the up anchor, then the children in lexicographic order of their names,
/// every name and URL escaped.
pub fn render_listing(dir: &Vec<Vec<u8>>, names: &Vec<Vec<u8>>) -> (r: Vec<u8>)
    ensures
        r@ == listing_spec(views_of(dir@), views_of(names@)),
{
    let ghost d = views_of(dir@);
    let sorted = sort_names(names);
    let ghost sv = views_of(sorted@);
    let ghost anchors = seq![up_anchor_spec(d)] + entry_anchors_spec(d, sv);

    let mut out: Vec<u8> = Vec::new();
    push_anchor_open(&mut out);
    let up_href = if dir.len() == 0 {
        href_prefix(dir, 0)
    } else {
        href_prefix(dir, dir.len() - 1)
    };
    proof {
        if d.len() == 0 {
            assert(d.take(0) =~= d);
        } else {
            assert(d.take(d.len() - 1) =~= d.drop_last());
        }
    }
    escape_into(&mut out, &up_href);
    push_anchor_mid(&mut out);
    out.push(DOT);
    out.push(DOT);
    push_anchor_close(&mut out);
    proof {
        assert(out@ =~= up_anchor_spec(d));
        assert(anchors.take(1) =~= seq![up_anchor_spec(d)]);
        assert(out@ == join_br(anchors.take(1)));
    }

    let mut i: usize = 0;
    while i < sorted.len()
        invariant
            i <= sorted.len(),
            sv == views_of(sorted@),
            d == views_of(dir@),
            anchors == seq![up_anchor_spec(d)] + entry_anchors_spec(d, sv),
            out@ == join_br(anchors.take(i as int + 1)),
        decreases sorted.len() - i,
    {
        let ghost before = out@;
        push_br(&mut out);
        push_anchor_open(&mut out);
        let href = entry_href(dir, &sorted[i]);
        escape_into(&mut out, &href);
        push_anchor_mid(&mut out);
        escape_into(&mut out, &sorted[i]);
        push_anchor_close(&mut out);
        proof {
            assert(sv[i as int] == sorted@[i as int]@);
            assert(entry_anchors_spec(d, sv)[i as int] == entry_anchor_spec(d, sv[i as int]));
            assert(anchors[i as int + 1] == entry_anchor_spec(d, sv[i as int]));
            assert(out@ =~= before + br_sep() + entry_anchor_spec(d, sv[i as int]));
            assert(anchors.take(i as int + 2).drop_last() =~= anchors.take(i as int + 1));
            assert(anchors.take(i as int + 2).last() == anchors[i as int + 1]);
            assert(out@ == join_br(anchors.take(i as int + 2)));
        }
        i += 1;
    }
    proof {
        assert(anchors.take(anchors.len() as int) =~= anchors);
        assert(sv == sort_spec(views_of(names@)));
    }
    out
}

/// Where the search of `insert_name` stops is where the specification
/// places the new name.
proof fn lemma_insert_at(x: Seq<u8>, s: Seq<Seq<u8>>, j: int)
    requires
        0 <= j <= s.len(),
        forall|k: int| 0 <= k < j ==> !lex_le(x, #[trigger] s[k]),
        j < s.len() ==> lex_le(x, s[j]),
    ensures
        insert_sorted(x, s) == s.take(j) + seq![x] + s.skip(j),
    decreases j,
{
    if j == 0 {
        if s.len() == 0 {
            assert(insert_sorted(x, s) =~= s.take(0) + seq![x] + s.skip(0));
        } else {
            assert(lex_le(x, s[0]));
            assert(s.take(0) =~= Seq::<Seq<u8>>::empty());
            assert(s.skip(0) =~= s);
            assert(insert_sorted(x, s) =~= s.take(0) + seq![x] + s.skip(0));
        }
    } else {
        assert(!lex_le(x, s[0]));
        let rest = s.drop_first();
        assert forall|k: int| 0 <= k < j - 1 implies !lex_le(x, #[trigger] rest[k]) by {
            assert(rest[k] == s[k + 1]);
        }
        assert(j - 1 < rest.len() ==> lex_le(x, rest[j - 1]));
        lemma_insert_at(x, rest, j - 1);
        assert(insert_sorted(x, s) == seq![s[0]] + (rest.take(j - 1) + seq![x] + rest.skip(j
            - 1)));
        assert(seq![s[0]] + (rest.take(j - 1) + seq![x] + rest.skip(j - 1)) =~= s.take(j)
            + seq![x] + s.skip(j));
    }
}

} // verus!
