//! Resolution of a decoded request-target against the served root.
//!
//! A target is split on `/`, then normalized: empty and `.` segments are
//! dropped, `..` removes the preceding segment, and a `..` that would climb
//! above the root discards the whole resolution — the target then resolves to
//! the root itself (the empty segment list). The resolved segments are always
//! plain names, so joining them under the root can never leave the root.
use vstd::prelude::*;

verus! {

/// The views of a sequence of owned strings.
pub open spec fn views_of(ss: Seq<String>) -> Seq<Seq<char>> {
    ss.map_values(|t: String| t@)
}

/// Splitting on `/`, defined over the characters from the right; a string
/// with no separator yields itself as the single segment.
pub open spec fn split_slash(s: Seq<char>) -> Seq<Seq<char>>
    decreases s.len(),
{
    if s.len() == 0 {
        seq![Seq::<char>::empty()]
    } else {
        let rest = split_slash(s.drop_last());
        if s.last() == '/' {
            rest.push(Seq::<char>::empty())
        } else {
            rest.update(rest.len() - 1, rest.last().push(s.last()))
        }
    }
}

/// A segment that resolution drops: empty or `.`.
pub open spec fn is_skip(s: Seq<char>) -> bool {
    s.len() == 0 || (s.len() == 1 && s[0] == '.')
}

/// The `..` segment.
pub open spec fn is_dotdot(s: Seq<char>) -> bool {
    s.len() == 2 && s[0] == '.' && s[1] == '.'
}

/// A plain name: survives normalization unchanged.
pub open spec fn is_normal(s: Seq<char>) -> bool {
    !is_skip(s) && !is_dotdot(s)
}

/// Normalization of the split segments over an accumulator; `None` means the
/// target attempted to climb above the root.
pub open spec fn norm_segs(segs: Seq<Seq<char>>, acc: Seq<Seq<char>>) -> Option<Seq<Seq<char>>>
    decreases segs.len(),
{
    if segs.len() == 0 {
        Some(acc)
    } else {
        let s0 = segs[0];
        if is_skip(s0) {
            norm_segs(segs.drop_first(), acc)
        } else if is_dotdot(s0) {
            if acc.len() == 0 {
                None
            } else {
                norm_segs(segs.drop_first(), acc.drop_last())
            }
        } else {
            norm_segs(segs.drop_first(), acc.push(s0))
        }
    }
}

/// The root-relative segments that a decoded target resolves to; an escaping
/// target resolves to the root (no segments).
pub open spec fn resolve_chars(s: Seq<char>) -> Seq<Seq<char>> {
    match norm_segs(split_slash(s), Seq::<Seq<char>>::empty()) {
        Some(v) => v,
        None => Seq::<Seq<char>>::empty(),
    }
}

/// Segments joined with `/` between them.
pub open spec fn join_slash(segs: Seq<Seq<char>>) -> Seq<char>
    decreases segs.len(),
{
    if segs.len() == 0 {
        Seq::<char>::empty()
    } else if segs.len() == 1 {
        segs[0]
    } else {
        join_slash(segs.drop_last()) + seq!['/'] + segs.last()
    }
}

/// Split a decoded target on `/`.
pub fn split_segments(s: &str) -> (r: Vec<String>)
    ensures
        views_of(r@) == split_slash(s@),
        r@.len() > 0,
{
    let n = s.unicode_len();
    let mut done: Vec<String> = Vec::new();
    let mut cur: String = String::new();
    let mut i: usize = 0;
    while i < n
        invariant
            n == s@.len(),
            i <= n,
            split_slash(s@.take(i as int)) == views_of(done@).push(cur@),
        decreases n - i,
    {
        let piece = s.substring_char(i, i + 1);
        proof {
            assert(s@.take(i as int + 1).drop_last() =~= s@.take(i as int));
            assert(s@.take(i as int + 1).last() == s@[i as int]);
            assert(piece@ =~= seq![s@[i as int]]);
        }
        if piece.unicode_len() == 1 && piece.get_char(0) == '/' {
            done.push(cur);
            cur = String::new();
            proof {
                assert(views_of(done@).push(cur@) =~= split_slash(s@.take(i as int)).push(
                    Seq::<char>::empty(),
                ));
            }
        } else {
            let ghost pre = cur@;
            cur.append(piece);
            proof {
                let prev = split_slash(s@.take(i as int));
                assert(cur@ == pre.push(s@[i as int]));
                assert(views_of(done@).push(cur@) =~= prev.update(
                    prev.len() - 1,
                    prev.last().push(s@[i as int]),
                ));
            }
        }
        i = i + 1;
    }
    proof {
        assert(s@.take(n as int) =~= s@);
    }
    done.push(cur);
    proof {
        assert(views_of(done@) =~= split_slash(s@));
    }
    done
}

/// Is the segment empty or `.`?
fn seg_is_skip(s: &String) -> (r: bool)
    ensures
        r == is_skip(s@),
{
    let n = s.as_str().unicode_len();
    n == 0 || (n == 1 && s.as_str().get_char(0) == '.')
}

/// Is the segment `..`?
fn seg_is_dotdot(s: &String) -> (r: bool)
    ensures
        r == is_dotdot(s@),
{
    let n = s.as_str().unicode_len();
    n == 2 && s.as_str().get_char(0) == '.' && s.as_str().get_char(1) == '.'
}

/// Normalize split segments; an escape yields the root (no segments).
pub fn normalize_segments(segs: Vec<String>) -> (r: Vec<String>)
    ensures
        views_of(r@) == (match norm_segs(views_of(segs@), Seq::<Seq<char>>::empty()) {
            Some(v) => v,
            None => Seq::<Seq<char>>::empty(),
        }),
{
    let ghost all = views_of(segs@);
    let mut stack: Vec<String> = Vec::new();
    let mut i: usize = 0;
    let n = segs.len();
    let mut escaped: bool = false;
    proof {
        assert(all.skip(0) =~= all);
        assert(views_of(stack@) =~= Seq::<Seq<char>>::empty());
    }
    while i < n
        invariant
            n == segs@.len(),
            i <= n,
            all == views_of(segs@),
            !escaped ==> norm_segs(all.skip(i as int), views_of(stack@)) == norm_segs(
                all,
                Seq::<Seq<char>>::empty(),
            ),
            escaped ==> norm_segs(all, Seq::<Seq<char>>::empty()) is None,
        decreases n - i,
    {
        proof {
            assert(all.skip(i as int).drop_first() =~= all.skip(i as int + 1));
            assert(all.skip(i as int)[0] == segs@[i as int]@);
        }
        let seg = &segs[i];
        if escaped {
        } else if seg_is_skip(seg) {
        } else if seg_is_dotdot(seg) {
            if stack.len() == 0 {
                proof {
                    assert(views_of(stack@) =~= Seq::<Seq<char>>::empty());
                }
                escaped = true;
            } else {
                let ghost pre = stack@;
                let _ = stack.pop();
                proof {
                    assert(views_of(stack@) =~= views_of(pre).drop_last());
                }
            }
        } else {
            let ghost pre = stack@;
            let s = seg.clone();
            stack.push(s);
            proof {
                assert(views_of(stack@) =~= views_of(pre).push(segs@[i as int]@));
            }
        }
        i = i + 1;
    }
    if escaped {
        let r: Vec<String> = Vec::new();
        proof {
            assert(views_of(r@) =~= Seq::<Seq<char>>::empty());
        }
        r
    } else {
        proof {
            assert(all.skip(n as int) =~= Seq::<Seq<char>>::empty());
        }
        stack
    }
}

/// Join root-relative segments with `/`.
pub fn join_segments(segs: &Vec<String>) -> (r: String)
    ensures
        r@ == join_slash(views_of(segs@)),
{
    let mut r = String::new();
    let mut i: usize = 0;
    let n = segs.len();
    proof {
        reveal_strlit("/");
    }
    while i < n
        invariant
            n == segs@.len(),
            i <= n,
            r@ == join_slash(views_of(segs@).take(i as int)),
            "/"@ =~= seq!['/'],
        decreases n - i,
    {
        if i > 0 {
            r.append("/");
        }
        r.append(segs[i].as_str());
        proof {
            let vs = views_of(segs@);
            assert(vs.take(i as int + 1).drop_last() =~= vs.take(i as int));
            assert(vs.take(i as int + 1).last() == vs[i as int]);
            if i > 0 {
                assert(vs.take(i as int + 1).len() > 1);
            }
            assert(r@ =~= join_slash(vs.take(i as int + 1)));
        }
        i = i + 1;
    }
    proof {
        assert(views_of(segs@).take(n as int) =~= views_of(segs@));
    }
    r
}

proof fn lemma_norm_all_normal(segs: Seq<Seq<char>>, acc: Seq<Seq<char>>)
    requires
        forall|k: int| 0 <= k < acc.len() ==> is_normal(#[trigger] acc[k]),
    ensures
        match norm_segs(segs, acc) {
            Some(v) => forall|k: int| 0 <= k < v.len() ==> is_normal(#[trigger] v[k]),
            None => true,
        },
    decreases segs.len(),
{
    if segs.len() == 0 {
    } else {
        let s0 = segs[0];
        if is_skip(s0) {
            lemma_norm_all_normal(segs.drop_first(), acc);
        } else if is_dotdot(s0) {
            if acc.len() == 0 {
            } else {
                assert forall|k: int| 0 <= k < acc.drop_last().len() implies is_normal(
                    #[trigger] acc.drop_last()[k],
                ) by {
                    assert(acc.drop_last()[k] == acc[k]);
                }
                lemma_norm_all_normal(segs.drop_first(), acc.drop_last());
            }
        } else {
            assert forall|k: int| 0 <= k < acc.push(s0).len() implies is_normal(
                #[trigger] acc.push(s0)[k],
            ) by {
                if k < acc.len() {
                    assert(acc.push(s0)[k] == acc[k]);
                } else {
                    assert(acc.push(s0)[k] == s0);
                }
            }
            lemma_norm_all_normal(segs.drop_first(), acc.push(s0));
        }
    }
}

/// Sandbox invariant: whatever the target, every resolved segment is a plain
/// name — no `..`, `.` or empty segment survives resolution, so joining the
/// result under the root can never leave the root.
pub proof fn lemma_resolve_contained(s: Seq<char>)
    ensures
        forall|k: int|
            0 <= k < resolve_chars(s).len() ==> is_normal(#[trigger] resolve_chars(s)[k]),
{
    lemma_norm_all_normal(split_slash(s), Seq::<Seq<char>>::empty());
}

/// A target with enough `..` segments to escape the root resolves to the root
/// itself.
pub proof fn lemma_escape_resolves_to_root(s: Seq<char>)
    requires
        norm_segs(split_slash(s), Seq::<Seq<char>>::empty()) is None,
    ensures
        resolve_chars(s) == Seq::<Seq<char>>::empty(),
{
}

proof fn lemma_norm_appends(segs: Seq<Seq<char>>, acc: Seq<Seq<char>>)
    requires
        forall|k: int| 0 <= k < segs.len() ==> is_normal(#[trigger] segs[k]),
    ensures
        norm_segs(segs, acc) == Some(acc + segs),
    decreases segs.len(),
{
    if segs.len() == 0 {
        assert(acc + segs =~= acc);
    } else {
        let s0 = segs[0];
        assert(is_normal(s0));
        assert forall|k: int| 0 <= k < segs.drop_first().len() implies is_normal(
            #[trigger] segs.drop_first()[k],
        ) by {
            assert(segs.drop_first()[k] == segs[k + 1]);
        }
        lemma_norm_appends(segs.drop_first(), acc.push(s0));
        assert(acc.push(s0) + segs.drop_first() =~= acc + segs);
    }
}

proof fn lemma_split_no_slash(s: Seq<char>)
    requires
        !s.contains('/'),
    ensures
        split_slash(s) == seq![s],
    decreases s.len(),
{
    if s.len() == 0 {
        assert(s =~= Seq::<char>::empty());
        assert(split_slash(s) =~= seq![s]);
    } else {
        assert(s.last() != '/') by {
            if s.last() == '/' {
                assert(s[s.len() - 1] == '/');
                assert(s.contains('/'));
            }
        }
        assert(!s.drop_last().contains('/')) by {
            if s.drop_last().contains('/') {
                let k = choose|k: int|
                    0 <= k < s.drop_last().len() && s.drop_last()[k] == '/';
                assert(s[k] == '/');
                assert(s.contains('/'));
            }
        }
        lemma_split_no_slash(s.drop_last());
        assert(seq![s.drop_last()].update(0, s.drop_last().push(s.last())) =~= seq![
            s.drop_last().push(s.last()),
        ]);
        assert(s.drop_last().push(s.last()) =~= s);
        assert(split_slash(s) =~= seq![s]);
    }
}

proof fn lemma_split_append_seg(a: Seq<char>, b: Seq<char>)
    requires
        !b.contains('/'),
    ensures
        split_slash(a + seq!['/'] + b) == split_slash(a).push(b),
    decreases b.len(),
{
    if b.len() == 0 {
        let s = a + seq!['/'] + b;
        assert(s =~= a.push('/'));
        assert(s.len() == a.len() + 1);
        assert(s.last() == '/');
        assert(s.drop_last() =~= a);
        assert(split_slash(s) =~= split_slash(a).push(Seq::<char>::empty()));
        assert(b =~= Seq::<char>::empty());
    } else {
        assert(b.last() != '/') by {
            if b.last() == '/' {
                assert(b[b.len() - 1] == '/');
                assert(b.contains('/'));
            }
        }
        assert(!b.drop_last().contains('/')) by {
            if b.drop_last().contains('/') {
                let k = choose|k: int|
                    0 <= k < b.drop_last().len() && b.drop_last()[k] == '/';
                assert(b[k] == '/');
                assert(b.contains('/'));
            }
        }
        lemma_split_append_seg(a, b.drop_last());
        let s = a + seq!['/'] + b;
        let t = a + seq!['/'] + b.drop_last();
        assert(s.drop_last() =~= t);
        assert(s.last() == b.last());
        assert(s.len() > 0);
        let rest = split_slash(t);
        assert(rest == split_slash(a).push(b.drop_last()));
        assert(rest.len() == split_slash(a).len() + 1);
        assert(rest.last() == b.drop_last());
        assert(split_slash(s) == rest.update(rest.len() - 1, rest.last().push(b.last())));
        assert(rest.update(rest.len() - 1, rest.last().push(b.last())) =~= split_slash(a).push(
            b.drop_last().push(b.last()),
        ));
        assert(b.drop_last().push(b.last()) =~= b);
    }
}

proof fn lemma_split_join(segs: Seq<Seq<char>>)
    requires
        segs.len() > 0,
        forall|k: int| 0 <= k < segs.len() ==> !(#[trigger] segs[k]).contains('/'),
    ensures
        split_slash(join_slash(segs)) == segs,
    decreases segs.len(),
{
    if segs.len() == 1 {
        lemma_split_no_slash(segs[0]);
        assert(seq![segs[0]] =~= segs);
    } else {
        assert forall|k: int| 0 <= k < segs.drop_last().len() implies !(
        #[trigger] segs.drop_last()[k]).contains('/') by {
            assert(segs.drop_last()[k] == segs[k]);
        }
        lemma_split_join(segs.drop_last());
        assert(!segs.last().contains('/'));
        lemma_split_append_seg(join_slash(segs.drop_last()), segs.last());
        assert(segs.drop_last().push(segs.last()) =~= segs);
    }
}

/// Round trip: a relative path of plain names, joined and resolved, yields
/// exactly its own segments back.
pub proof fn lemma_resolve_round_trip(segs: Seq<Seq<char>>)
    requires
        forall|k: int|
            0 <= k < segs.len() ==> is_normal(#[trigger] segs[k]) && !segs[k].contains('/'),
    ensures
        resolve_chars(join_slash(segs)) == segs,
{
    if segs.len() == 0 {
        let e = Seq::<char>::empty();
        assert(join_slash(segs) == e);
        assert(!e.contains('/')) by {
            if e.contains('/') {
                let k = choose|k: int| 0 <= k < e.len() && e[k] == '/';
            }
        }
        lemma_split_no_slash(e);
        assert(split_slash(e) == seq![e]);
        assert(is_skip(e));
        let nil = Seq::<Seq<char>>::empty();
        assert(seq![e].drop_first() =~= nil);
        assert(norm_segs(nil, nil) == Some(nil));
        assert(norm_segs(seq![e], nil) == norm_segs(seq![e].drop_first(), nil));
        assert(norm_segs(seq![e], nil) == Some(nil));
        assert(resolve_chars(join_slash(segs)) =~= segs);
    } else {
        lemma_split_join(segs);
        lemma_norm_appends(segs, Seq::<Seq<char>>::empty());
        assert(Seq::<Seq<char>>::empty() + segs =~= segs);
    }
}

} // verus!
