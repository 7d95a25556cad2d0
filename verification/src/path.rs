//! Lexical resolution of captured URL paths against a serving root.
//!
//! A capture is an arbitrary byte string taken from the wildcard portion of a
//! request path. It is split on `/` into segments, and the special segments
//! `.` and `..` are resolved logically, before any filesystem probe, so that
//! a request can never name a location above the serving root.

use vstd::prelude::*;

verus! {

/// Byte value of the path separator `/`.
pub const SLASH: u8 = 47;

/// Byte value of `.`.
pub const DOT: u8 = 46;

/// True when no byte of `s` is the separator `/`.
pub open spec fn no_slash(s: Seq<u8>) -> bool {
    forall|j: int| 0 <= j < s.len() ==> s[j] != SLASH
}

/// True of a segment that names a real child of a directory: nonempty, free
/// of separators, and not one of the two special segments `.` and `..`.
pub open spec fn plain_segment(s: Seq<u8>) -> bool {
    &&& s.len() > 0
    &&& no_slash(s)
    &&& s != seq![DOT]
    &&& s != seq![DOT, DOT]
}

/// The sequence of views of a sequence of byte vectors.
pub open spec fn views_of(v: Seq<Vec<u8>>) -> Seq<Seq<u8>> {
    v.map_values(|x: Vec<u8>| x@)
}

/// Splitting a byte string on `/`: the empty string splits into one empty
/// segment; every further byte either extends the last segment or, when it
/// is the separator, starts a new empty one.
pub open spec fn split_spec(s: Seq<u8>) -> Seq<Seq<u8>>
    decreases s.len(),
{
    if s.len() == 0 {
        seq![Seq::<u8>::empty()]
    } else {
        let prev = split_spec(s.drop_last());
        if s.last() == SLASH {
            prev.push(Seq::<u8>::empty())
        } else {
            prev.drop_last().push(prev.last().push(s.last()))
        }
    }
}

pub proof fn lemma_split_spec_len(s: Seq<u8>)
    ensures
        split_spec(s).len() >= 1,
    decreases s.len(),
{
    if s.len() > 0 {
        lemma_split_spec_len(s.drop_last());
    }
}

/// No segment of a split capture contains the separator.
pub proof fn lemma_split_spec_no_slash(s: Seq<u8>)
    ensures
        forall|i: int| 0 <= i < split_spec(s).len() ==> no_slash(#[trigger] split_spec(s)[i]),
    decreases s.len(),
{
    if s.len() > 0 {
        let prev = split_spec(s.drop_last());
        lemma_split_spec_no_slash(s.drop_last());
        lemma_split_spec_len(s.drop_last());
        if s.last() == SLASH {
        } else {
            let grown = prev.last().push(s.last());
            assert(no_slash(prev[prev.len() - 1]));
            assert forall|j: int| 0 <= j < grown.len() implies grown[j] != SLASH by {
                if j < prev.last().len() {
                    assert(prev.last()[j] != SLASH);
                }
            }
            assert forall|i: int| 0 <= i < split_spec(s).len() implies no_slash(
                #[trigger] split_spec(s)[i],
            ) by {
                if i < prev.len() - 1 {
                    assert(split_spec(s)[i] == prev[i]);
                } else {
                    assert(split_spec(s)[i] == grown);
                }
            }
        }
    }
}

/// Logical resolution of split segments: empty and `.` segments vanish, `..`
/// removes the most recent plain segment, and a `..` with nothing left to
/// remove means the capture crosses above the root, which resolution refuses.
pub open spec fn norm_segs(segs: Seq<Seq<u8>>) -> Option<Seq<Seq<u8>>>
    decreases segs.len(),
{
    if segs.len() == 0 {
        Some(Seq::<Seq<u8>>::empty())
    } else {
        match norm_segs(segs.drop_last()) {
            None => None,
            Some(acc) => {
                let last = segs.last();
                if last.len() == 0 || last == seq![DOT] {
                    Some(acc)
                } else if last == seq![DOT, DOT] {
                    if acc.len() == 0 {
                        None
                    } else {
                        Some(acc.drop_last())
                    }
                } else {
                    Some(acc.push(last))
                }
            },
        }
    }
}

/// The root-relative segments that a capture resolves to, or `None` when the
/// capture would escape the root.
pub open spec fn norm_path(s: Seq<u8>) -> Option<Seq<Seq<u8>>> {
    norm_segs(split_spec(s))
}

/// How a single segment moves the resolution depth: a plain name goes one
/// level down, `..` one level up, and empty or `.` segments stay in place.
pub open spec fn seg_weight(s: Seq<u8>) -> int {
    if s.len() == 0 || s == seq![DOT] {
        0
    } else if s == seq![DOT, DOT] {
        -1
    } else {
        1
    }
}

/// Net depth of a sequence of segments relative to the root.
pub open spec fn depth(segs: Seq<Seq<u8>>) -> int
    decreases segs.len(),
{
    if segs.len() == 0 {
        0
    } else {
        depth(segs.drop_last()) + seg_weight(segs.last())
    }
}

/// True when some prefix of the segments reaches above the root.
pub open spec fn escapes_root(segs: Seq<Seq<u8>>) -> bool {
    exists|i: int| 0 <= i <= segs.len() && depth(#[trigger] segs.take(i)) < 0
}

/// Resolution refuses exactly the captures that reach above the root, and a
/// resolved capture rests as many levels below the root as its net depth.
pub proof fn lemma_norm_characterization(segs: Seq<Seq<u8>>)
    ensures
        norm_segs(segs) is None <==> escapes_root(segs),
        norm_segs(segs) matches Some(out) ==> out.len() == depth(segs),
    decreases segs.len(),
{
    if segs.len() == 0 {
        assert(segs.take(0) =~= segs);
        assert(!escapes_root(segs));
    } else {
        let p = segs.drop_last();
        let w = segs.last();
        lemma_norm_characterization(p);
        assert forall|i: int| 0 <= i <= p.len() implies #[trigger] segs.take(i) == p.take(i) by {
            assert(segs.take(i) =~= p.take(i));
        }
        assert(segs.take(segs.len() as int) =~= segs);
        match norm_segs(p) {
            None => {
                let i = choose|i: int| 0 <= i <= p.len() && depth(#[trigger] p.take(i)) < 0;
                assert(depth(segs.take(i)) < 0);
                assert(escapes_root(segs));
            },
            Some(acc) => {
                assert(!escapes_root(p));
                assert(acc.len() == depth(p));
                if w == seq![DOT, DOT] && acc.len() == 0 {
                    assert(depth(segs) == depth(p) - 1);
                    assert(depth(segs.take(segs.len() as int)) < 0);
                    assert(escapes_root(segs));
                } else {
                    assert(norm_segs(segs) is Some);
                    assert(norm_segs(segs).unwrap().len() == depth(segs));
                    assert(depth(segs) >= 0);
                    if escapes_root(segs) {
                        let i = choose|i: int|
                            0 <= i <= segs.len() && depth(#[trigger] segs.take(i)) < 0;
                        if i <= p.len() {
                            assert(depth(p.take(i)) < 0);
                            assert(escapes_root(p));
                        } else {
                            assert(segs.take(i) == segs);
                        }
                        assert(false);
                    }
                }
            },
        }
    }
}

/// Once resolution has failed on a prefix, it fails on the whole.
pub proof fn lemma_norm_none_extends(segs: Seq<Seq<u8>>, i: int)
    requires
        0 <= i <= segs.len(),
        norm_segs(segs.take(i)) is None,
    ensures
        norm_segs(segs) is None,
    decreases segs.len() - i,
{
    if i < segs.len() {
        assert(segs.take(i + 1).drop_last() =~= segs.take(i));
        lemma_norm_none_extends(segs, i + 1);
    } else {
        assert(segs.take(i) =~= segs);
    }
}

/// Every segment of a resolved capture is a plain name.
pub proof fn lemma_norm_plain(segs: Seq<Seq<u8>>)
    requires
        forall|i: int| 0 <= i < segs.len() ==> no_slash(#[trigger] segs[i]),
    ensures
        norm_segs(segs) matches Some(out) ==> forall|i: int|
            0 <= i < out.len() ==> plain_segment(#[trigger] out[i]),
    decreases segs.len(),
{
    if segs.len() > 0 {
        let p = segs.drop_last();
        let w = segs.last();
        assert forall|i: int| 0 <= i < p.len() implies no_slash(#[trigger] p[i]) by {
            assert(p[i] == segs[i]);
        }
        lemma_norm_plain(p);
        if norm_segs(segs) is Some {
            let acc = norm_segs(p).unwrap();
            let out = norm_segs(segs).unwrap();
            if w.len() == 0 || w == seq![DOT] {
                assert(out == acc);
            } else if w == seq![DOT, DOT] {
                assert(out == acc.drop_last());
                assert forall|i: int| 0 <= i < out.len() implies plain_segment(
                    #[trigger] out[i],
                ) by {
                    assert(out[i] == acc[i]);
                }
            } else {
                assert(no_slash(segs[segs.len() - 1]));
                assert(plain_segment(w));
                assert(out == acc.push(w));
                assert forall|i: int| 0 <= i < out.len() implies plain_segment(
                    #[trigger] out[i],
                ) by {
                    if i < acc.len() {
                        assert(out[i] == acc[i]);
                    } else {
                        assert(out[i] == w);
                    }
                }
            }
        }
    }
}

/// Splits a capture on `/` into its raw segments.
pub fn split_capture(capture: &Vec<u8>) -> (r: Vec<Vec<u8>>)
    ensures
        views_of(r@) == split_spec(capture@),
{
    let mut segs: Vec<Vec<u8>> = Vec::new();
    segs.push(Vec::new());
    proof {
        assert(capture@.take(0) =~= Seq::<u8>::empty());
        assert(views_of(segs@) =~~= split_spec(capture@.take(0)));
    }
    let mut i: usize = 0;
    while i < capture.len()
        invariant
            i <= capture.len(),
            segs@.len() >= 1,
            views_of(segs@) == split_spec(capture@.take(i as int)),
        decreases capture.len() - i,
    {
        let ghost prev = views_of(segs@);
        proof {
            assert(capture@.take(i as int + 1).drop_last() =~= capture@.take(i as int));
            assert(capture@.take(i as int + 1).last() == capture@[i as int]);
        }
        let b = capture[i];
        if b == SLASH {
            segs.push(Vec::new());
            proof {
                assert(views_of(segs@) =~~= prev.push(Seq::<u8>::empty()));
            }
        } else {
            let mut last = segs.pop().unwrap();
            last.push(b);
            segs.push(last);
            proof {
                assert(views_of(segs@) =~~= prev.drop_last().push(prev.last().push(b)));
            }
        }
        i += 1;
    }
    proof {
        assert(capture@.take(capture@.len() as int) =~= capture@);
    }
    segs
}

/// Copies a byte vector.
pub(crate) fn copy_bytes(s: &Vec<u8>) -> (r: Vec<u8>)
    ensures
        r@ == s@,
{
    let mut r: Vec<u8> = Vec::new();
    let mut i: usize = 0;
    while i < s.len()
        invariant
            i <= s.len(),
            r@ == s@.take(i as int),
        decreases s.len() - i,
    {
        r.push(s[i]);
        proof {
            assert(s@.take(i as int + 1) =~= s@.take(i as int).push(s@[i as int]));
        }
        i += 1;
    }
    proof {
        assert(s@.take(s@.len() as int) =~= s@);
    }
    r
}

/// Resolves raw segments left to right; `None` means the capture escapes
/// the root.
pub fn normalize_segments(segs: &Vec<Vec<u8>>) -> (r: Option<Vec<Vec<u8>>>)
    ensures
        r is Some <==> norm_segs(views_of(segs@)) is Some,
        r matches Some(out) ==> norm_segs(views_of(segs@)) == Some(views_of(out@)),
{
    let ghost gsegs = views_of(segs@);
    let mut stack: Vec<Vec<u8>> = Vec::new();
    proof {
        assert(gsegs.take(0) =~= Seq::<Seq<u8>>::empty());
        assert(views_of(stack@) =~~= Seq::<Seq<u8>>::empty());
    }
    let mut i: usize = 0;
    while i < segs.len()
        invariant
            i <= segs.len(),
            gsegs == views_of(segs@),
            norm_segs(gsegs.take(i as int)) == Some(views_of(stack@)),
        decreases segs.len() - i,
    {
        let ghost prev = views_of(stack@);
        proof {
            assert(gsegs.take(i as int + 1).drop_last() =~= gsegs.take(i as int));
            assert(gsegs.take(i as int + 1).last() == gsegs[i as int]);
            assert(gsegs[i as int] == segs@[i as int]@);
        }
        let seg = &segs[i];
        if seg.len() == 0 || (seg.len() == 1 && seg[0] == DOT) {
            proof {
                if seg@.len() == 1 {
                    assert(seg@ =~= seq![DOT]);
                }
            }
        } else if seg.len() == 2 && seg[0] == DOT && seg[1] == DOT {
            proof {
                assert(seg@ =~= seq![DOT, DOT]);
            }
            if stack.len() == 0 {
                proof {
                    assert(norm_segs(gsegs.take(i as int + 1)) is None);
                    lemma_norm_none_extends(gsegs, i as int + 1);
                }
                return None;
            }
            let _ = stack.pop();
            proof {
                assert(views_of(stack@) =~~= prev.drop_last());
            }
        } else {
            proof {
                assert(seg@.len() > 0);
                assert(seg@ != seq![DOT]) by {
                    if seg@ == seq![DOT] {
                        assert(seg@.len() == 1 && seg@[0] == DOT);
                    }
                }
                assert(seg@ != seq![DOT, DOT]) by {
                    if seg@ == seq![DOT, DOT] {
                        assert(seg@.len() == 2 && seg@[0] == DOT && seg@[1] == DOT);
                    }
                }
            }
            let copy = copy_bytes(seg);
            stack.push(copy);
            proof {
                assert(views_of(stack@) =~~= prev.push(seg@));
            }
        }
        i += 1;
    }
    proof {
        assert(gsegs.take(segs@.len() as int) =~= gsegs);
    }
    Some(stack)
}

/// Whatever a capture resolves to is made of plain names alone: no empty
/// segment, no separator, no `.` and no `..` survives resolution.
pub proof fn lemma_norm_path_plain(s: Seq<u8>)
    ensures
        norm_path(s) matches Some(out) ==> forall|i: int|
            0 <= i < out.len() ==> plain_segment(#[trigger] out[i]),
{
    lemma_split_spec_no_slash(s);
    lemma_norm_plain(split_spec(s));
}

/// Resolves a capture to root-relative plain segments; `None` when the
/// capture would escape the root.
pub fn normalize_capture(capture: &Vec<u8>) -> (r: Option<Vec<Vec<u8>>>)
    ensures
        r is Some <==> norm_path(capture@) is Some,
        r matches Some(out) ==> norm_path(capture@) == Some(views_of(out@)),
        norm_path(capture@) matches Some(nrm) ==> forall|i: int|
            0 <= i < nrm.len() ==> plain_segment(#[trigger] nrm[i]),
{
    let segs = split_capture(capture);
    let r = normalize_segments(&segs);
    proof {
        lemma_norm_path_plain(capture@);
    }
    r
}

} // verus!
