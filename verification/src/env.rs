//! Chained lexical scopes.
//!
//! Environments live in an arena: each scope is a node holding its own
//! bindings and the index of its parent, so several closures can share one
//! defining scope.  Nodes are only ever added, never removed; a scope is
//! "discarded" simply by nothing referring to it any more.  A parent index is
//! always smaller than the index of its child, so every lookup chain is
//! finite.

use vstd::prelude::*;

use crate::types::clone_chars;
use crate::types::tv;
use crate::types::Func;
use crate::types::Native;
use crate::types::Token;
use crate::types::Val;

verus! {

/// One scope: bindings in insertion order (each name at most once) and the
/// arena index of the enclosing scope, if any.
pub struct EnvNode {
    pub entries: Vec<(Vec<char>, Token)>,
    pub parent: Option<usize>,
}

/// The mathematical view of one scope.
#[verifier::ext_equal]
pub struct NodeV {
    pub entries: Seq<(Seq<char>, Val)>,
    pub parent: Option<int>,
}

/// The view of a scope's binding list.
pub open spec fn entries_view(es: Seq<(Vec<char>, Token)>) -> Seq<(Seq<char>, Val)> {
    Seq::new(es.len(), |i: int| (es[i].0@, tv(es[i].1)))
}

/// The view of one scope.
pub open spec fn node_view(n: EnvNode) -> NodeV {
    NodeV {
        entries: entries_view(n.entries@),
        parent: match n.parent {
            Option::None => Option::None,
            Option::Some(p) => Option::Some(p as int),
        },
    }
}

/// The arena of scopes.  Index 0 is the root environment.
pub struct Env {
    pub nodes: Vec<EnvNode>,
}

impl View for Env {
    type V = Seq<NodeV>;

    open spec fn view(&self) -> Seq<NodeV> {
        Seq::new(self.nodes@.len(), |i: int| node_view(self.nodes@[i]))
    }
}

/// The index of the first entry bound to `key`, or -1 if none is.
pub open spec fn key_idx(es: Seq<(Seq<char>, Val)>, key: Seq<char>) -> int
    decreases es,
{
    if es.len() == 0 {
        -1
    } else if es[0].0 == key {
        0
    } else {
        let r = key_idx(es.drop_first(), key);
        if r < 0 {
            -1
        } else {
            r + 1
        }
    }
}

/// `key_idx` finds the first entry bound to `key`, and -1 only when no
/// entry is.
pub broadcast proof fn lemma_key_idx(es: Seq<(Seq<char>, Val)>, key: Seq<char>)
    ensures
        -1 <= #[trigger] key_idx(es, key) < es.len(),
        key_idx(es, key) >= 0 ==> es[key_idx(es, key)].0 == key,
        forall|j: int|
            0 <= j < es.len() && j < key_idx(es, key) ==> (#[trigger] es[j]).0 != key,
        key_idx(es, key) == -1 ==> forall|j: int|
            0 <= j < es.len() ==> (#[trigger] es[j]).0 != key,
    decreases es,
{
    if es.len() > 0 {
        lemma_key_idx(es.drop_first(), key);
        if es[0].0 != key {
            let rest = es.drop_first();
            assert forall|j: int| 0 <= j < es.len() && j < key_idx(es, key) implies (
                #[trigger] es[j]).0 != key by {
                if j > 0 {
                    assert(rest[j - 1] == es[j]);
                }
            }
            if key_idx(rest, key) < 0 {
                assert forall|j: int| 0 <= j < es.len() implies (#[trigger] es[j]).0 != key by {
                    if j > 0 {
                        assert(rest[j - 1] == es[j]);
                    }
                }
            } else {
                assert(es[key_idx(rest, key) + 1] == rest[key_idx(rest, key)]);
            }
        }
    }
}

/// What one scope binds `key` to, if anything.
pub open spec fn entries_get(es: Seq<(Seq<char>, Val)>, key: Seq<char>) -> Option<Val> {
    if key_idx(es, key) >= 0 {
        Option::Some(es[key_idx(es, key)].1)
    } else {
        Option::None
    }
}

/// A scope's binding list after binding `key` to `val`: the first entry for
/// `key` is replaced, or a new entry is appended.
pub open spec fn entries_put(
    es: Seq<(Seq<char>, Val)>,
    key: Seq<char>,
    val: Val,
) -> Seq<(Seq<char>, Val)> {
    if key_idx(es, key) >= 0 {
        es.update(key_idx(es, key), (key, val))
    } else {
        es.push((key, val))
    }
}

/// What the chain of scopes starting at `at` binds `key` to: the current
/// scope first, then each parent in turn.  Out-of-range or non-decreasing
/// parent links end the search.
pub open spec fn lookup_in(envs: Seq<NodeV>, at: int, key: Seq<char>) -> Option<Val>
    decreases at,
{
    if !(0 <= at < envs.len()) {
        Option::None
    } else {
        match entries_get(envs[at].entries, key) {
            Option::Some(v) => Option::Some(v),
            Option::None => match envs[at].parent {
                Option::Some(p) => if 0 <= p < at {
                    lookup_in(envs, p, key)
                } else {
                    Option::None
                },
                Option::None => Option::None,
            },
        }
    }
}

/// The arena is well formed: every parent link points to an earlier node.
pub open spec fn env_wf(envs: Seq<NodeV>) -> bool {
    forall|i: int|
        0 <= i < envs.len() ==> match (#[trigger] envs[i]).parent {
            Option::Some(p) => 0 <= p < i,
            Option::None => true,
        }
}

impl Env {
    /// A fresh arena holding one empty root scope.
    pub fn new() -> (e: Env)
        ensures
            e@ =~~= seq![NodeV { entries: Seq::empty(), parent: Option::None }],
            env_wf(e@),
    {
        let mut nodes: Vec<EnvNode> = Vec::new();
        nodes.push(EnvNode { entries: Vec::new(), parent: Option::None });
        let e = Env { nodes };
        proof {
            assert(e@[0].entries =~= Seq::<(Seq<char>, Val)>::empty());
            assert(e@ =~~= seq![NodeV { entries: Seq::empty(), parent: Option::None }]);
        }
        e
    }

    /// Adds a fresh empty scope chained to `parent` and returns its index.
    /// A parent index beyond the arena never resolves in lookups.
    pub fn new_child(&mut self, parent: usize) -> (id: usize)
        ensures
            id == old(self)@.len(),
            final(self)@ =~~= old(self)@.push(
                NodeV { entries: Seq::empty(), parent: Option::Some(parent as int) },
            ),
            env_wf(old(self)@) && parent < old(self)@.len() ==> env_wf(final(self)@),
    {
        let id = self.nodes.len();
        self.nodes.push(EnvNode { entries: Vec::new(), parent: Option::Some(parent) });
        proof {
            assert(self@[id as int].entries =~= Seq::<(Seq<char>, Val)>::empty());
            assert(self@ =~~= old(self)@.push(
                NodeV { entries: Seq::empty(), parent: Option::Some(parent as int) },
            ));
            assert(env_wf(old(self)@) && parent < old(self)@.len() ==> env_wf(self@));
        }
        id
    }

    /// Looks `key` up through the chain of scopes starting at `at`:
    /// the current scope first, then each parent in turn.
    pub fn get(&self, at: usize, key: &Vec<char>) -> (r: Option<Token>)
        ensures
            match r {
                Option::Some(t) => lookup_in(self@, at as int, key@) == Option::Some(t@),
                Option::None => lookup_in(self@, at as int, key@) is None,
            },
    {
        let mut cur: usize = at;
        if at >= self.nodes.len() {
            return Option::None;
        }
        loop
            invariant
                cur < self.nodes@.len(),
                lookup_in(self@, at as int, key@) == lookup_in(self@, cur as int, key@),
            decreases cur,
        {
            let node = &self.nodes[cur];
            let mut i: usize = 0;
            let ghost es = self@[cur as int].entries;
            proof {
                lemma_key_idx(es, key@);
            }
            while i < node.entries.len()
                invariant
                    node == self.nodes@[cur as int],
                    lookup_in(self@, at as int, key@) == lookup_in(self@, cur as int, key@),
                    cur < self.nodes@.len(),
                    es == self@[cur as int].entries,
                    i <= node.entries@.len(),
                    es.len() == node.entries@.len(),
                    forall|j: int| 0 <= j < es.len() ==> (#[trigger] es[j])
                        == (node.entries@[j].0@, tv(node.entries@[j].1)),
                    forall|j: int| 0 <= j < i ==> (#[trigger] es[j]).0 != key@,
                decreases node.entries@.len() - i,
            {
                if chars_eq(&node.entries[i].0, key) {
                    proof {
                        lemma_key_idx(es, key@);
                        assert(es[i as int].0 == key@);
                        assert(key_idx(es, key@) == i);
                        assert(es[i as int].1 == tv(node.entries@[i as int].1));
                        assert(lookup_in(self@, cur as int, key@)
                            == Option::Some(es[i as int].1));
                    }
                    let result = node.entries[i].1.duplicate();
                    proof {
                        assert(result@ == es[i as int].1);
                        assert(lookup_in(self@, at as int, key@) == Option::Some(result@));
                    }
                    return Option::Some(result);
                }
                i = i + 1;
            }
            proof {
                lemma_key_idx(es, key@);
                assert(key_idx(es, key@) == -1);
            }
            match node.parent {
                Option::Some(p) => {
                    if p < cur {
                        cur = p;
                    } else {
                        return Option::None;
                    }
                },
                Option::None => {
                    return Option::None;
                },
            }
        }
    }

    /// Binds `key` to `value` in scope `at` alone, replacing any earlier
    /// binding of the same name there; enclosing scopes are untouched.
    pub fn insert(&mut self, at: usize, key: Vec<char>, value: Token)
        requires
            at < old(self)@.len(),
        ensures
            final(self)@ =~~= old(self)@.update(
                at as int,
                NodeV {
                    entries: entries_put(old(self)@[at as int].entries, key@, value@),
                    parent: old(self)@[at as int].parent,
                },
            ),
            env_wf(old(self)@) ==> env_wf(final(self)@),
    {
        let ghost kk = key@;
        let ghost vv = value@;
        let mut node = EnvNode { entries: Vec::new(), parent: Option::None };
        self.nodes.set_and_swap(at, &mut node);
        let ghost es = entries_view(node.entries@);
        proof {
            lemma_key_idx(es, kk);
            assert(es == old(self)@[at as int].entries);
        }
        let mut i: usize = 0;
        let n = node.entries.len();
        let mut found = false;
        while i < n && !found
            invariant
                n == node.entries@.len(),
                es == entries_view(node.entries@),
                es.len() == n,
                i <= n,
                kk == key@,
                forall|j: int| 0 <= j < es.len() ==> (#[trigger] es[j])
                    == (node.entries@[j].0@, tv(node.entries@[j].1)),
                forall|j: int| 0 <= j < i ==> (#[trigger] es[j]).0 != kk,
                found ==> i < n && es[i as int].0 == kk,
            decreases n - i + (if found { 0int } else { 1int }),
        {
            if chars_eq(&node.entries[i].0, &key) {
                found = true;
            } else {
                i = i + 1;
            }
        }
        if found {
            proof {
                lemma_key_idx(es, kk);
                assert(key_idx(es, kk) == i);
            }
            node.entries.set(i, (key, value));
            proof {
                assert(entries_view(node.entries@) =~= entries_put(es, kk, vv));
            }
        } else {
            proof {
                lemma_key_idx(es, kk);
                assert(key_idx(es, kk) == -1);
            }
            node.entries.push((key, value));
            proof {
                assert(entries_view(node.entries@) =~= entries_put(es, kk, vv));
            }
        }
        let ghost nv = node_view(node);
        self.nodes.set(at, node);
        proof {
            assert(nv.entries == entries_put(old(self)@[at as int].entries, kk, vv));
            assert(nv.parent == old(self)@[at as int].parent);
            assert(self@ =~~= old(self)@.update(
                at as int,
                NodeV {
                    entries: entries_put(old(self)@[at as int].entries, kk, vv),
                    parent: old(self)@[at as int].parent,
                },
            ));
            assert(env_wf(old(self)@) ==> env_wf(self@));
        }
    }

    /// The names bound in scope `at` itself, in insertion order.
    pub fn symbols(&self, at: usize) -> (r: Vec<Vec<char>>)
        requires
            at < self@.len(),
        ensures
            r@.len() == self@[at as int].entries.len(),
            forall|j: int| 0 <= j < r@.len() ==> r@[j]@ == self@[at as int].entries[j].0,
    {
        let node = &self.nodes[at];
        let mut out: Vec<Vec<char>> = Vec::new();
        let mut i: usize = 0;
        while i < node.entries.len()
            invariant
                at < self.nodes@.len(),
                node == self.nodes@[at as int],
                i <= node.entries@.len(),
                out@.len() == i,
                forall|j: int| 0 <= j < i ==> out@[j]@ == self@[at as int].entries[j].0,
            decreases node.entries@.len() - i,
        {
            out.push(clone_chars(&node.entries[i].0));
            i = i + 1;
        }
        out
    }
}

/// Character-for-character equality of two names.
pub fn chars_eq(a: &Vec<char>, b: &Vec<char>) -> (r: bool)
    ensures
        r == (a@ == b@),
{
    if a.len() != b.len() {
        proof {
            assert(a@.len() != b@.len());
        }
        return false;
    }
    let mut i: usize = 0;
    while i < a.len()
        invariant
            a@.len() == b@.len(),
            i <= a@.len(),
            forall|j: int| 0 <= j < i ==> a@[j] == b@[j],
        decreases a@.len() - i,
    {
        if a[i] != b[i] {
            return false;
        }
        i = i + 1;
    }
    proof {
        assert(a@ =~= b@);
    }
    true
}


/// The name that switches on evaluator tracing.
pub open spec fn debug_eval_name() -> Seq<char> {
    seq!['D', 'E', 'B', 'U', 'G', '-', 'E', 'V', 'A', 'L']
}

/// The bindings of the root environment: the fixed native library.
pub open spec fn builtin_entries() -> Seq<(Seq<char>, Val)> {
    seq![
        (seq!['+'], Val::Native(Native::Add)),
        (seq!['-'], Val::Native(Native::Sub)),
        (seq!['*'], Val::Native(Native::Mul)),
        (seq!['/'], Val::Native(Native::Div)),
        (seq!['='], Val::Native(Native::EqVal)),
        (seq!['>'], Val::Native(Native::Gt)),
        (seq!['>', '='], Val::Native(Native::Ge)),
        (seq!['<'], Val::Native(Native::Lt)),
        (seq!['<', '='], Val::Native(Native::Le)),
        (seq!['l', 'i', 's', 't'], Val::Native(Native::MakeList)),
        (seq!['l', 'i', 's', 't', '?'], Val::Native(Native::IsList)),
        (seq!['e', 'm', 'p', 't', 'y', '?'], Val::Native(Native::IsEmpty)),
        (seq!['c', 'o', 'u', 'n', 't'], Val::Native(Native::Count)),
        (seq!['n', 'o', 't'], Val::Native(Native::Not)),
        (seq!['s', 't', 'r'], Val::Native(Native::StrFn)),
        (seq!['p', 'r', '-', 's', 't', 'r'], Val::Native(Native::PrStr)),
        (seq!['p', 'r', 'n'], Val::Native(Native::Prn)),
        (seq!['p', 'r', 'i', 'n', 't', 'l', 'n'], Val::Native(Native::Println)),
    ]
}

/// The view of the root environment: one scope holding the native library.
pub open spec fn root_env() -> Seq<NodeV> {
    seq![NodeV { entries: builtin_entries(), parent: Option::None }]
}

impl Default for Env {
    /// The root environment, with every native function registered.
    fn default() -> (e: Env)
        ensures
            e@ =~~= root_env(),
            env_wf(e@),
    {
        let mut entries: Vec<(Vec<char>, Token)> = Vec::new();
        entries.push((vec!['+'], Token::Func(Func::Native(Native::Add))));
        entries.push((vec!['-'], Token::Func(Func::Native(Native::Sub))));
        entries.push((vec!['*'], Token::Func(Func::Native(Native::Mul))));
        entries.push((vec!['/'], Token::Func(Func::Native(Native::Div))));
        entries.push((vec!['='], Token::Func(Func::Native(Native::EqVal))));
        entries.push((vec!['>'], Token::Func(Func::Native(Native::Gt))));
        entries.push((vec!['>', '='], Token::Func(Func::Native(Native::Ge))));
        entries.push((vec!['<'], Token::Func(Func::Native(Native::Lt))));
        entries.push((vec!['<', '='], Token::Func(Func::Native(Native::Le))));
        entries.push((vec!['l', 'i', 's', 't'], Token::Func(Func::Native(Native::MakeList))));
        entries.push((vec!['l', 'i', 's', 't', '?'], Token::Func(Func::Native(Native::IsList))));
        entries.push((vec!['e', 'm', 'p', 't', 'y', '?'], Token::Func(Func::Native(Native::IsEmpty))));
        entries.push((vec!['c', 'o', 'u', 'n', 't'], Token::Func(Func::Native(Native::Count))));
        entries.push((vec!['n', 'o', 't'], Token::Func(Func::Native(Native::Not))));
        entries.push((vec!['s', 't', 'r'], Token::Func(Func::Native(Native::StrFn))));
        entries.push((vec!['p', 'r', '-', 's', 't', 'r'], Token::Func(Func::Native(Native::PrStr))));
        entries.push((vec!['p', 'r', 'n'], Token::Func(Func::Native(Native::Prn))));
        entries.push((vec!['p', 'r', 'i', 'n', 't', 'l', 'n'], Token::Func(Func::Native(Native::Println))));
        let mut nodes: Vec<EnvNode> = Vec::new();
        nodes.push(EnvNode { entries, parent: Option::None });
        let e = Env { nodes };
        proof {
            assert(e@[0].entries =~~= builtin_entries());
            assert(e@ =~~= root_env());
        }
        e
    }
}

impl Env {
    /// The same arena with evaluator tracing switched on in the root scope.
    pub fn with_debug(self) -> (r: Env)
        requires
            0 < self@.len(),
        ensures
            r@ =~~= self@.update(
                0,
                NodeV {
                    entries: entries_put(self@[0].entries, debug_eval_name(), Val::Bool(true)),
                    parent: self@[0].parent,
                },
            ),
            env_wf(self@) ==> env_wf(r@),
    {
        let ghost orig = self@;
        let mut e = self;
        let name: Vec<char> = vec!['D', 'E', 'B', 'U', 'G', '-', 'E', 'V', 'A', 'L'];
        proof {
            assert(name@ =~= debug_eval_name());
        }
        e.insert(0, name, Token::Bool(true));
        proof {
            assert(e@ =~~= orig.update(
                0,
                NodeV {
                    entries: entries_put(orig[0].entries, debug_eval_name(), Val::Bool(true)),
                    parent: orig[0].parent,
                },
            ));
        }
        e
    }
}

} // verus!
