//! Edge scoring from posts and comments. An edge between two persons earns
//! two points for every comment by one of them that replies directly to a
//! post by the other, and one point for every comment by one of them that
//! replies to a comment by the other; each point is attributed to the forum
//! of the root post reached by walking the reply chain upward. The output
//! is a multiset of `(edge, forum)` records whose multiplicities are the
//! points.

use vstd::prelude::*;
use crate::collection::{Collection, Val};
use crate::diff::{has_val, is_set};
use crate::{Node, Edge};

verus! {

/// A post or comment identifier.
pub type Text = u64;

/// A forum identifier.
pub type Forum = u64;

/// A post record: identifier, author and forum.
pub type Post = (Text, (Node, Forum));

/// A comment record: identifier, author and the text it replies to.
pub type Comm = (Text, (Node, Text));

/// The undirected reading of a pair of persons.
pub open spec fn norm_pair(a: Node, b: Node) -> Edge {
    if a <= b {
        (a, b)
    } else {
        (b, a)
    }
}

/// Whether some post carries this identifier.
pub open spec fn is_post(ps: Seq<(Post, i64)>, id: Text) -> bool {
    exists|af: (Node, Forum)| has_val(ps, (id, af))
}

/// Whether some comment carries this identifier.
pub open spec fn is_comm(cs: Seq<(Comm, i64)>, id: Text) -> bool {
    exists|al: (Node, Text)| has_val(cs, (id, al))
}

/// The author and forum of the post with this identifier.
pub open spec fn post_data(ps: Seq<(Post, i64)>, id: Text) -> (Node, Forum) {
    choose|af: (Node, Forum)| has_val(ps, (id, af))
}

/// The author and parent of the comment with this identifier.
pub open spec fn comm_data(cs: Seq<(Comm, i64)>, id: Text) -> (Node, Text) {
    choose|al: (Node, Text)| has_val(cs, (id, al))
}

/// Walks the reply chain upward from `id` for at most `fuel` steps and
/// returns the root post reached, if any.
pub open spec fn resolve_root(
    cs: Seq<(Comm, i64)>,
    ps: Seq<(Post, i64)>,
    id: Text,
    fuel: nat,
) -> Option<Text>
    decreases fuel,
{
    if is_post(ps, id) {
        Some(id)
    } else if is_comm(cs, id) && fuel > 0 {
        resolve_root(cs, ps, comm_data(cs, id).1, (fuel - 1) as nat)
    } else {
        None
    }
}

/// What one comment contributes: two points at the parent post's forum for
/// a direct reply to a post, one point at the root post's forum for a reply
/// to a comment — in either case only between the two authors and only if
/// that pair is a recorded edge.
pub open spec fn points_of(
    cs: Seq<(Comm, i64)>,
    ps: Seq<(Post, i64)>,
    es: Seq<(Edge, i64)>,
    c: Comm,
    fuel: nat,
) -> Seq<((Edge, Forum), i64)> {
    let auth = c.1.0;
    let link = c.1.1;
    if is_post(ps, link) {
        let e = norm_pair(auth, post_data(ps, link).0);
        if has_val(es, e) {
            seq![((e, post_data(ps, link).1), 2i64)]
        } else {
            Seq::empty()
        }
    } else if is_comm(cs, link) {
        let e = norm_pair(auth, comm_data(cs, link).0);
        if has_val(es, e) {
            match resolve_root(cs, ps, comm_data(cs, link).1, fuel) {
                Some(p) => seq![((e, post_data(ps, p).1), 1i64)],
                None => Seq::empty(),
            }
        } else {
            Seq::empty()
        }
    } else {
        Seq::empty()
    }
}

/// The full score list: the contributions of the first `k` comments.
pub open spec fn score_updates(
    cs: Seq<(Comm, i64)>,
    ps: Seq<(Post, i64)>,
    es: Seq<(Edge, i64)>,
    k: int,
    fuel: nat,
) -> Seq<((Edge, Forum), i64)>
    decreases k,
{
    if k <= 0 {
        Seq::empty()
    } else {
        score_updates(cs, ps, es, k - 1, fuel) + points_of(cs, ps, es, cs[k - 1].0, fuel)
    }
}

/// Unique identifiers within the records, and none shared between posts
/// and comments.
pub open spec fn keys_ok(cs: Seq<(Comm, i64)>, ps: Seq<(Post, i64)>) -> bool {
    &&& forall|i: int, j: int|
        0 <= i < j < ps.len() ==> (#[trigger] ps[i]).0.0 != (#[trigger] ps[j]).0.0
    &&& forall|i: int, j: int|
        0 <= i < j < cs.len() ==> (#[trigger] cs[i]).0.0 != (#[trigger] cs[j]).0.0
    &&& forall|i: int, j: int|
        0 <= i < ps.len() && 0 <= j < cs.len() ==> (#[trigger] ps[i]).0.0 != (
        #[trigger] cs[j]).0.0
}

/// Looks up a post by identifier.
#[verifier::loop_isolation(false)]
fn find_post(posts: &Collection<Post>, id: Text) -> (r: Option<(Node, Forum)>)
    requires
        forall|i: int, j: int|
            0 <= i < j < posts@.len() ==> (#[trigger] posts@[i]).0.0 != (#[trigger] posts@[j]).0.0,
    ensures
        match r {
            Some(af) => has_val(posts@, (id, af)) && is_post(posts@, id) && post_data(posts@, id)
                == af,
            None => !is_post(posts@, id),
        },
{
    let n = posts.len();
    let mut i: usize = 0;
    while i < n
        invariant
            i <= n,
            n == posts@.len(),
            forall|j: int| 0 <= j < i ==> (#[trigger] posts@[j]).0.0 != id,
        decreases n - i,
    {
        let (pid, af) = posts.get(i).0;
        proof {
            assert(posts@[i as int].0 == (pid, af));
        }
        if pid == id {
            proof {
                assert(has_val(posts@, (id, af))) by {
                    assert(posts@[i as int].0 == (id, af));
                }
                let af2 = post_data(posts@, id);
                assert(has_val(posts@, (id, af2)));
                let j = choose|j: int|
                    0 <= j < posts@.len() && (#[trigger] posts@[j]).0 == (id, af2);
                assert(0 <= j < posts@.len() && posts@[j].0 == (id, af2));
                let j2 = choose|j2: int|
                    0 <= j2 < posts@.len() && (#[trigger] posts@[j2]).0 == (id, af);
                assert(0 <= j2 < posts@.len() && posts@[j2].0 == (id, af));
                assert(posts@[j].0.0 == id && posts@[j2].0.0 == id);
                if j != j2 {
                    if j < j2 {
                        assert(posts@[j].0.0 != posts@[j2].0.0);
                    } else {
                        assert(posts@[j2].0.0 != posts@[j].0.0);
                    }
                    assert(false);
                }
                assert(af2 == af);
            }
            return Some(af);
        }
        i += 1;
    }
    proof {
        if is_post(posts@, id) {
            let af = choose|af: (Node, Forum)| has_val(posts@, (id, af));
            let j = choose|j: int| 0 <= j < posts@.len() && (#[trigger] posts@[j]).0 == (id, af);
            assert(false);
        }
    }
    None
}

/// Looks up a comment by identifier.
#[verifier::loop_isolation(false)]
fn find_comm(comms: &Collection<Comm>, id: Text) -> (r: Option<(Node, Text)>)
    requires
        forall|i: int, j: int|
            0 <= i < j < comms@.len() ==> (#[trigger] comms@[i]).0.0 != (#[trigger] comms@[j]).0.0,
    ensures
        match r {
            Some(al) => has_val(comms@, (id, al)) && is_comm(comms@, id) && comm_data(comms@, id)
                == al,
            None => !is_comm(comms@, id),
        },
{
    let n = comms.len();
    let mut i: usize = 0;
    while i < n
        invariant
            i <= n,
            n == comms@.len(),
            forall|j: int| 0 <= j < i ==> (#[trigger] comms@[j]).0.0 != id,
        decreases n - i,
    {
        let (cid, al) = comms.get(i).0;
        proof {
            assert(comms@[i as int].0 == (cid, al));
        }
        if cid == id {
            proof {
                assert(has_val(comms@, (id, al))) by {
                    assert(comms@[i as int].0 == (id, al));
                }
                let al2 = comm_data(comms@, id);
                assert(has_val(comms@, (id, al2)));
                let j = choose|j: int|
                    0 <= j < comms@.len() && (#[trigger] comms@[j]).0 == (id, al2);
                let j2 = choose|j2: int|
                    0 <= j2 < comms@.len() && (#[trigger] comms@[j2]).0 == (id, al);
                if j != j2 {
                    if j < j2 {
                        assert(comms@[j].0.0 != comms@[j2].0.0);
                    } else {
                        assert(comms@[j2].0.0 != comms@[j].0.0);
                    }
                    assert(false);
                }
                assert(al2 == al);
            }
            return Some(al);
        }
        i += 1;
    }
    proof {
        if is_comm(comms@, id) {
            let al = choose|al: (Node, Text)| has_val(comms@, (id, al));
            let j = choose|j: int| 0 <= j < comms@.len() && (#[trigger] comms@[j]).0 == (id, al);
            assert(false);
        }
    }
    None
}

/// Walks the reply chain upward, executably.
fn resolve_exec(comms: &Collection<Comm>, posts: &Collection<Post>, id: Text, fuel: u64) -> (r:
    Option<Text>)
    requires
        keys_ok(comms@, posts@),
    ensures
        r == resolve_root(comms@, posts@, id, fuel as nat),
    decreases fuel,
{
    match find_post(posts, id) {
        Some(_) => Some(id),
        None => {
            match find_comm(comms, id) {
                Some(al) => {
                    if fuel > 0 {
                        resolve_exec(comms, posts, al.1, fuel - 1)
                    } else {
                        None
                    }
                },
                None => None,
            }
        },
    }
}

/// Scores every edge from the comment and post records: a multiset of
/// `(edge, forum)` records, two per direct post reply and one per comment
/// reply, exactly the concatenation of each comment's contribution in
/// input order. Reply chains are followed for at most as many steps as
/// there are comments.
pub fn score_edges(
    edges: &Collection<Edge>,
    posts: &Collection<Post>,
    comms: &Collection<Comm>,
) -> (r: Collection<(Edge, Forum)>)
    requires
        is_set(edges@),
        keys_ok(comms@, posts@),
    ensures
        r@ == score_updates(
            comms@,
            posts@,
            edges@,
            comms@.len() as int,
            comms@.len() as nat,
        ),
{
    let ghost cs = comms@;
    let ghost ps = posts@;
    let ghost es = edges@;
    let n = comms.len();
    let fuel = n as u64;
    let mut out: Collection<(Edge, Forum)> = Collection::empty();
    let mut i: usize = 0;
    while i < n
        invariant
            i <= n,
            n == cs.len(),
            comms@ == cs,
            posts@ == ps,
            edges@ == es,
            fuel == n as u64,
            keys_ok(cs, ps),
            out@ == score_updates(cs, ps, es, i as int, fuel as nat),
        decreases n - i,
    {
        let (id, (auth, link)) = comms.get(i).0;
        proof {
            assert(cs[i as int].0 == (id, (auth, link)));
        }
        let ghost out0 = out@;
        match find_post(posts, link) {
            Some((pa, pf)) => {
                let e = if auth <= pa {
                    (auth, pa)
                } else {
                    (pa, auth)
                };
                proof {
                    assert(e == norm_pair(auth, pa));
                    assert(post_data(ps, link) == (pa, pf));
                }
                if edges.has(&e) {
                    out.push((e, pf), 2i64);
                    proof {
                        assert(out@ =~= out0 + points_of(cs, ps, es, cs[i as int].0, fuel as nat));
                    }
                } else {
                    proof {
                        assert(out@ =~= out0 + points_of(cs, ps, es, cs[i as int].0, fuel as nat));
                    }
                }
            },
            None => {
                match find_comm(comms, link) {
                    Some((ca, cl)) => {
                        let e = if auth <= ca {
                            (auth, ca)
                        } else {
                            (ca, auth)
                        };
                        proof {
                            assert(e == norm_pair(auth, ca));
                            assert(comm_data(cs, link) == (ca, cl));
                        }
                        if edges.has(&e) {
                            match resolve_exec(comms, posts, cl, fuel) {
                                Some(p) => {
                                    let pf = match find_post(posts, p) {
                                        Some((_, pf0)) => pf0,
                                        None => {
                                            proof {
                                                // the resolved root is a post.
                                                assert(resolve_root(cs, ps, cl, fuel as nat)
                                                    == Some(p));
                                                lemma_resolve_is_post(cs, ps, cl, fuel as nat);
                                                assert(false);
                                            }
                                            0
                                        },
                                    };
                                    proof {
                                        assert(post_data(ps, p).1 == pf);
                                    }
                                    out.push((e, pf), 1i64);
                                    proof {
                                        assert(out@ =~= out0 + points_of(
                                            cs,
                                            ps,
                                            es,
                                            cs[i as int].0,
                                            fuel as nat,
                                        ));
                                    }
                                },
                                None => {
                                    proof {
                                        assert(out@ =~= out0 + points_of(
                                            cs,
                                            ps,
                                            es,
                                            cs[i as int].0,
                                            fuel as nat,
                                        ));
                                    }
                                },
                            }
                        } else {
                            proof {
                                assert(out@ =~= out0 + points_of(cs, ps, es, cs[i as int].0, fuel as nat));
                            }
                        }
                    },
                    None => {
                        proof {
                            assert(out@ =~= out0 + points_of(cs, ps, es, cs[i as int].0, fuel as nat));
                        }
                    },
                }
            },
        }
        proof {
            assert(score_updates(cs, ps, es, i + 1, fuel as nat) == score_updates(
                cs,
                ps,
                es,
                i as int,
                fuel as nat,
            ) + points_of(cs, ps, es, cs[i as int].0, fuel as nat));
            assert(out@ =~= score_updates(cs, ps, es, i + 1, fuel as nat));
        }
        i += 1;
    }
    proof {
        assert(out@ == score_updates(cs, ps, es, n as int, n as nat));
    }
    out
}

/// What the chain walk returns is always a post.
proof fn lemma_resolve_is_post(cs: Seq<(Comm, i64)>, ps: Seq<(Post, i64)>, id: Text, fuel: nat)
    ensures
        match resolve_root(cs, ps, id, fuel) {
            Some(p) => is_post(ps, p),
            None => true,
        },
    decreases fuel,
{
    if is_post(ps, id) {
    } else if is_comm(cs, id) && fuel > 0 {
        lemma_resolve_is_post(cs, ps, comm_data(cs, id).1, (fuel - 1) as nat);
    }
}

} // verus!
