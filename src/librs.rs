//! The tree of nested scopes built from dotted names, and its rendering as
//! nested module declarations with one inclusion directive per name.
use vstd::prelude::*;
use vstd::seq_lib::to_multiset_insert;
use crate::text::{
    all_spaces, brace_depth, brace_free, lemma_brace_depth_concat, lemma_brace_free_concat,
    lemma_brace_free_depth, lemma_single_line_concat, lemma_strip_concat, lemma_strip_one,
    lemma_whole_lines_concat, single_line, strip_guards, whole_lines,
};
use crate::order::{lex_lt, lemma_lex_irreflexive, lemma_lex_total, lemma_lex_transitive, str_lt};

verus! {

broadcast use vstd::std_specs::vec::group_vec_axioms;

/// A dotted name, one segment per element: `a.b.c` is `["a", "b", "c"]`.
pub type Module = Vec<String>;

/// The segments of a dotted name.
pub open spec fn module_view(m: Module) -> Seq<Seq<char>> {
    m@.map_values(|s: String| s@)
}

/// `p` is a prefix of `q`.
pub open spec fn is_prefix(p: Seq<Seq<char>>, q: Seq<Seq<char>>) -> bool {
    p.len() <= q.len() && q.take(p.len() as int) =~= p
}

/// The path of the scope that holds the name `n`: all its segments but the last.
pub open spec fn parent_path(n: Seq<Seq<char>>) -> Seq<Seq<char>> {
    n.drop_last()
}

/// One scope: its child scopes, keyed by segment, and the names that end here.
#[derive(Debug)]
pub struct Mod {
    submodules: Vec<(String, Mod)>,
    contents: Vec<Module>,
}

/// A copy of a dotted name.
fn copy_module(m: &Module) -> (r: Module)
    ensures
        r@ == m@,
{
    let mut r: Module = Vec::new();
    let mut i: usize = 0;
    while i < m.len()
        invariant
            i <= m@.len(),
            r@ == m@.take(i as int),
        decreases m@.len() - i,
    {
        r.push(m[i].clone());
        i = i + 1;
        assert(r@ =~= m@.take(i as int));
    }
    assert(m@.take(i as int) =~= m@);
    r
}

/// The segments of a dotted name joined by `.`.
pub open spec fn dotted(n: Seq<Seq<char>>) -> Seq<char>
    decreases n.len(),
{
    if n.len() == 0 {
        Seq::empty()
    } else if n.len() == 1 {
        n[0]
    } else {
        dotted(n.drop_last()) + seq!['.'] + n.last()
    }
}

/// The feature that gates a name written `s`: each `r#` (the escape of a
/// keyword) removed, each `.` made `_`.
pub open spec fn feature_name(s: Seq<char>) -> Seq<char>
    decreases s.len(),
{
    if s.len() == 0 {
        Seq::empty()
    } else if s.len() >= 2 && s[0] == 'r' && s[1] == '#' {
        feature_name(s.skip(2))
    } else {
        seq![if s[0] == '.' { '_' } else { s[0] }] + feature_name(s.drop_first())
    }
}

/// One level of indentation.
pub open spec fn indent_unit() -> Seq<char> {
    "    "@
}

/// The line that opens the scope `name`.
pub open spec fn open_line(ind: Seq<char>, name: Seq<char>) -> Seq<char> {
    ind + "pub mod "@ + name + " {\n"@
}

/// The line that closes a scope.
pub open spec fn close_line(ind: Seq<char>) -> Seq<char> {
    ind + "}\n"@
}

/// The line that includes the generated file `path`.rs, under `prefix`.
pub open spec fn include_line(ind: Seq<char>, prefix: Seq<char>, path: Seq<char>) -> Seq<char> {
    ind + "include!(\""@ + prefix + path + ".rs\");\n"@
}

/// The line that gates what follows behind `feature`.
pub open spec fn guard_line(ind: Seq<char>, feature: Seq<char>) -> Seq<char> {
    ind + "#[cfg(feature = \""@ + feature + "\")]\n"@
}

/// The lines for one name: its guard line when features gate, then its inclusion.
pub open spec fn leaf_text(n: Seq<Seq<char>>, ind: Seq<char>, prefix: Seq<char>, gates: bool) -> Seq<char> {
    (if gates {
        guard_line(ind, feature_name(dotted(n)))
    } else {
        Seq::empty()
    }) + include_line(ind, prefix, dotted(n))
}

/// The lines for the names of one scope, in order.
pub open spec fn leaf_lines(
    ns: Seq<Seq<Seq<char>>>,
    ind: Seq<char>,
    prefix: Seq<char>,
    gates: bool,
) -> Seq<char>
    decreases ns.len(),
{
    if ns.len() == 0 {
        Seq::empty()
    } else {
        leaf_lines(ns.drop_last(), ind, prefix, gates) + leaf_text(ns.last(), ind, prefix, gates)
    }
}

/// How a tree is rendered.
pub struct Config {
    /// A file descriptor set to include, before anything else, in the root scope.
    pub file_descriptor_set_path: Option<String>,
    /// Split mode: the directory of the generated files, put before every included path.
    pub gen_dir: Option<String>,
    /// Whether each name's inclusion is gated behind a feature named after it.
    pub feature_gates: bool,
}

/// What goes before every included path: the directory of split mode, or nothing.
pub open spec fn prefix_of(cfg: Config) -> Seq<char> {
    match cfg.gen_dir {
        Some(d) => d@,
        None => Seq::empty(),
    }
}

/// The inclusion of the file descriptor set, if there is one.
pub open spec fn descriptor_text(cfg: Config) -> Seq<char> {
    match cfg.file_descriptor_set_path {
        Some(p) => include_line(Seq::empty(), prefix_of(cfg), p@),
        None => Seq::empty(),
    }
}

/// The whole entry point generated for `mods` under `cfg`.
pub open spec fn librs_text(mods: Mod, cfg: Config) -> Seq<char> {
    descriptor_text(cfg) + mods.render(Seq::empty(), prefix_of(cfg), cfg.feature_gates)
}

/// The segments of `m` joined by `.`.
fn join_dotted(m: &Module) -> (r: String)
    ensures
        r@ == dotted(module_view(*m)),
{
    let ghost n = module_view(*m);
    if m.len() == 0 {
        return String::new();
    }
    let mut r = m[0].clone();
    assert(n.take(1).drop_last() =~= Seq::<Seq<char>>::empty());
    let mut i: usize = 1;
    while i < m.len()
        invariant
            1 <= i <= m@.len(),
            n == module_view(*m),
            r@ == dotted(n.take(i as int)),
        decreases m@.len() - i,
    {
        r.append(".");
        r.append(m[i].as_str());
        proof {
            reveal_strlit(".");
            assert(n.take(i + 1).drop_last() =~= n.take(i as int));
        }
        i = i + 1;
    }
    assert(n.take(i as int) =~= n);
    r
}

/// The feature that gates the name written `s`.
fn feature_of(s: &String) -> (r: String)
    ensures
        r@ == feature_name(s@),
{
    let len = s.as_str().unicode_len();
    let mut r = String::new();
    let mut i: usize = 0;
    proof {
        reveal_strlit("_");
        assert(s@.skip(0) =~= s@);
    }
    while i < len
        invariant
            len == s@.len(),
            i <= len,
            r@ + feature_name(s@.skip(i as int)) == feature_name(s@),
        decreases len - i,
    {
        let c = s.as_str().get_char(i);
        if i + 1 < len && c == 'r' && s.as_str().get_char(i + 1) == '#' {
            assert(s@.skip(i as int).skip(2) =~= s@.skip(i + 2));
            i = i + 2;
        } else {
            let ghost rest = s@.skip(i as int);
            let ghost r0 = r@;
            let ghost c2 = if c == '.' { '_' } else { c };
            assert(rest.drop_first() =~= s@.skip(i + 1));
            assert(rest[0] == c);
            assert(rest.len() >= 2 ==> rest[1] == s@[i + 1]);
            assert(feature_name(rest) == seq![c2] + feature_name(rest.drop_first()));
            if c == '.' {
                r.append("_");
                proof {
                    reveal_strlit("_");
                    assert("_"@ =~= seq!['_']);
                }
            } else {
                let one = s.as_str().substring_char(i, i + 1);
                assert(one@ =~= seq![c]);
                r.append(one);
            }
            assert(r@ =~= r0 + seq![c2]);
            assert(r@ + feature_name(s@.skip(i + 1)) =~= r0 + feature_name(rest));
            i = i + 1;
        }
    }
    assert(feature_name(s@.skip(i as int)) =~= Seq::<char>::empty());
    assert(r@ =~= r@ + Seq::<char>::empty());
    r
}

impl Mod {
    /// Whether a child scope is named `name`.
    pub closed spec fn has_child(self, name: Seq<char>) -> bool {
        exists|i: int| 0 <= i < self.submodules@.len() && #[trigger] self.submodules@[i].0@ == name
    }

    /// The position of the child scope named `name`.
    pub closed spec fn child_index(self, name: Seq<char>) -> int {
        choose|i: int| 0 <= i < self.submodules@.len() && #[trigger] self.submodules@[i].0@ == name
    }

    /// The scope reached from this one by following the segments of `p`.
    pub closed spec fn scope_at(self, p: Seq<Seq<char>>) -> Option<Mod>
        decreases p.len(),
    {
        if p.len() == 0 {
            Some(self)
        } else if self.has_child(p[0]) {
            self.submodules@[self.child_index(p[0])].1.scope_at(p.drop_first())
        } else {
            None
        }
    }

    /// Whether a scope exists at path `p`.
    pub open spec fn has_scope(self, p: Seq<Seq<char>>) -> bool {
        self.scope_at(p) is Some
    }

    /// The names that end in this scope, in order.
    pub closed spec fn leaf_names(self) -> Seq<Seq<Seq<char>>> {
        self.contents@.map_values(|m: Module| module_view(m))
    }

    /// The names held by the scope at path `p`, in order; none if there is no such scope.
    pub open spec fn leaves_at(self, p: Seq<Seq<char>>) -> Seq<Seq<Seq<char>>> {
        match self.scope_at(p) {
            Some(s) => s.leaf_names(),
            None => Seq::empty(),
        }
    }

    /// Child names strictly increase.
    pub closed spec fn children_sorted(self) -> bool {
        forall|i: int, j: int|
            0 <= i < j < self.submodules@.len() ==> lex_lt(
                #[trigger] self.submodules@[i].0@,
                #[trigger] self.submodules@[j].0@,
            )
    }

    /// The names here sit at path `base` (all their segments but the last), and
    /// come in order of their last segment, which is the order of the names.
    pub closed spec fn leaves_placed(self, base: Seq<Seq<char>>) -> bool {
        &&& forall|i: int|
            0 <= i < self.contents@.len() ==> {
                let n = #[trigger] self.leaf_names()[i];
                n.len() == base.len() + 1 && parent_path(n) =~= base
            }
        &&& forall|i: int, j: int|
            0 <= i < j < self.contents@.len() ==> !lex_lt(
                (#[trigger] self.leaf_names()[j]).last(),
                (#[trigger] self.leaf_names()[i]).last(),
            )
    }

    /// Every scope below this one, this one at path `base`, is in order and
    /// holds only the names that belong to its path.
    pub closed spec fn wf_at(self, base: Seq<Seq<char>>) -> bool {
        forall|p: Seq<Seq<char>>| #[trigger] self.has_scope(p) ==> {
            let s = self.scope_at(p).unwrap();
            s.children_sorted() && s.leaves_placed(base + p)
        }
    }

    /// The invariant of a whole tree, whose root has the empty path.
    pub open spec fn wf(self) -> bool {
        self.wf_at(Seq::empty())
    }

    /// A tree with no scope and no name.
    pub closed spec fn is_empty(self) -> bool {
        self.submodules@.len() == 0 && self.contents@.len() == 0
    }

    /// A tree with no child and no name has the root scope alone.
    proof fn lemma_empty(self, base: Seq<Seq<char>>)
        requires
            self.is_empty(),
        ensures
            self.wf_at(base),
            forall|p: Seq<Seq<char>>| #[trigger] self.has_scope(p) <==> p.len() == 0,
            forall|p: Seq<Seq<char>>| #[trigger] self.leaves_at(p).len() == 0,
    {
        assert forall|p: Seq<Seq<char>>| #[trigger] self.has_scope(p) <==> p.len() == 0 by {
            if p.len() > 0 {
                assert(!self.has_child(p[0]));
            }
        }
        assert forall|p: Seq<Seq<char>>| #[trigger] self.leaves_at(p).len() == 0 by {
            if p.len() > 0 {
                assert(!self.has_child(p[0]));
            }
        }
    }

    /// With child names strictly increasing, the child at `i` is the one found by its name.
    proof fn lemma_child_at(self, i: int)
        requires
            self.children_sorted(),
            0 <= i < self.submodules@.len(),
        ensures
            self.has_child(self.submodules@[i].0@),
            self.child_index(self.submodules@[i].0@) == i,
    {
        let name = self.submodules@[i].0@;
        assert(self.submodules@[i].0@ == name);
        let j = self.child_index(name);
        if j != i {
            lemma_lex_irreflexive(name);
            if j < i {
                assert(lex_lt(self.submodules@[j].0@, self.submodules@[i].0@));
            } else {
                assert(lex_lt(self.submodules@[i].0@, self.submodules@[j].0@));
            }
        }
    }


    /// The text of this scope's children and names, at indentation `ind`,
    /// starting from the child at position `i`.
    spec fn render_from(self, i: int, ind: Seq<char>, prefix: Seq<char>, gates: bool) -> Seq<char>
        decreases self, self.submodules@.len() - i,
    {
        if 0 <= i < self.submodules@.len() {
            open_line(ind, self.submodules@[i].0@) + self.submodules@[i].1.render_from(
                0,
                ind + indent_unit(),
                prefix,
                gates,
            ) + close_line(ind) + self.render_from(i + 1, ind, prefix, gates)
        } else {
            leaf_lines(self.leaf_names(), ind, prefix, gates)
        }
    }

    /// The text of this scope at indentation `ind`: each child scope as a
    /// block, in order of name, then the names that end here.
    pub closed spec fn render(self, ind: Seq<char>, prefix: Seq<char>, gates: bool) -> Seq<char> {
        self.render_from(0, ind, prefix, gates)
    }

    /// Adds the dotted name `module` to the tree: the scopes along its path but
    /// the last segment are found or created, and the last of them receives
    /// the name. An empty name changes nothing. A name added twice is held twice.
    pub fn push(&mut self, module: &Module)
        requires
            old(self).wf(),
        ensures
            final(self).wf(),
            module@.len() == 0 ==> *final(self) == *old(self),
            module@.len() > 0 ==> forall|p: Seq<Seq<char>>|
                #[trigger] final(self).has_scope(p) == (old(self).has_scope(p) || is_prefix(
                    p,
                    parent_path(module_view(*module)),
                )),
            forall|p: Seq<Seq<char>>|
                #[trigger] final(self).leaves_at(p).to_multiset() == if module@.len() > 0 && p
                    == parent_path(module_view(*module)) {
                    old(self).leaves_at(p).to_multiset().insert(module_view(*module))
                } else {
                    old(self).leaves_at(p).to_multiset()
                },
    {
        if module.len() > 0 {
            assert(module_view(*module).take(0) =~= Seq::<Seq<char>>::empty());
            assert(parent_path(module_view(*module)).skip(0) =~= parent_path(module_view(*module)));
            self.add(module, 0);
        }
    }

    /// Adds the dotted name `module`, whose segments `module[..k]` lead from
    /// the root to this scope: the scopes on the rest of its path but the last
    /// segment are found or created, and the name goes to the last of them.
    fn add(&mut self, module: &Module, k: usize)
        requires
            k < module@.len(),
            old(self).wf_at(module_view(*module).take(k as int)),
        ensures
            final(self).wf_at(module_view(*module).take(k as int)),
            forall|p: Seq<Seq<char>>|
                #[trigger] final(self).has_scope(p) == (old(self).has_scope(p) || is_prefix(
                    p,
                    parent_path(module_view(*module)).skip(k as int),
                )),
            forall|p: Seq<Seq<char>>|
                #[trigger] final(self).leaves_at(p).to_multiset() == if p == parent_path(
                    module_view(*module),
                ).skip(k as int) {
                    old(self).leaves_at(p).to_multiset().insert(module_view(*module))
                } else {
                    old(self).leaves_at(p).to_multiset()
                },
        decreases module@.len() - k,
    {
        let ghost mv = module_view(*module);
        let ghost base = mv.take(k as int);
        let ghost t = parent_path(mv).skip(k as int);
        let ghost o = *self;
        assert(o.has_scope(Seq::empty()));
        if k == module.len() - 1 {
            assert(parent_path(mv) =~= base);
            assert(t =~= Seq::<Seq<char>>::empty());
            let copy = copy_module(module);
            self.insert_leaf(copy);
            assert forall|p: Seq<Seq<char>>| p.len() > 0 implies #[trigger] self.scope_at(p) == o.scope_at(p) by {
                assert(self.has_child(p[0]) == o.has_child(p[0]));
            }
            assert forall|p: Seq<Seq<char>>| #[trigger] self.has_scope(p) implies {
                let s = self.scope_at(p).unwrap();
                s.children_sorted() && s.leaves_placed(base + p)
            } by {
                if p.len() == 0 {
                    assert(base + p =~= base);
                    assert(module_view(copy) == mv);
                    assert(self.children_sorted());
                } else {
                    assert(self.scope_at(p) == o.scope_at(p));
                    assert(o.has_scope(p));
                }
            }
            assert forall|p: Seq<Seq<char>>|
                #[trigger] self.has_scope(p) == (o.has_scope(p) || is_prefix(p, t)) by {
                if p.len() > 0 {
                    assert(self.scope_at(p) == o.scope_at(p));
                }
            }
            assert forall|p: Seq<Seq<char>>|
                #[trigger] self.leaves_at(p).to_multiset() == if p == t {
                    o.leaves_at(p).to_multiset().insert(mv)
                } else {
                    o.leaves_at(p).to_multiset()
                } by {
                if p.len() > 0 {
                    assert(self.scope_at(p) == o.scope_at(p));
                } else {
                    assert(p =~= t);
                }
            }
        } else {
            let name = &module[k];
            assert(name@ == mv[k as int]);
            let i = self.child_slot(name);
            let ghost ins = !(i < self.submodules.len() && self.submodules[i as int].0@ == name@);
            let ghost c: Mod;
            let ghost cn: Mod;
            if i < self.submodules.len() && self.submodules[i].0 == *name {
                proof {
                    o.lemma_child_at(i as int);
                    assert forall|q: Seq<Seq<char>>| #[trigger] o.submodules@[i as int].1.has_scope(q) implies {
                        let s = o.submodules@[i as int].1.scope_at(q).unwrap();
                        s.children_sorted() && s.leaves_placed(mv.take(k + 1) + q)
                    } by {
                        let p = seq![name@] + q;
                        assert(p.drop_first() =~= q);
                        assert(o.has_scope(p));
                        assert(base + p =~= mv.take(k + 1) + q);
                    }
                }
                let (cname, mut child) = self.submodules.remove(i);
                proof {
                    c = child;
                }
                child.add(module, k + 1);
                proof {
                    cn = child;
                }
                self.submodules.insert(i, (cname, child));
                assert(self.submodules@ =~= o.submodules@.update(i as int, (cname, cn)));
                assert(self.children_sorted());
            } else {
                let mut child = Mod::default();
                proof {
                    c = child;
                    child.lemma_empty(mv.take(k + 1));
                }
                child.add(module, k + 1);
                proof {
                    cn = child;
                }
                let cname = name.clone();
                proof {
                    if i < o.submodules@.len() {
                        lemma_lex_total(o.submodules@[i as int].0@, name@);
                    }
                }
                self.submodules.insert(i, (cname, child));
                proof {
                    Mod::lemma_sorted_after_insert(o, *self, i as int, (cname, cn));
                }
            }
            proof {
                let n = *self;
                assert(n.submodules@[i as int].1 == cn);
                assert(n.submodules@[i as int].0@ == name@);
                n.lemma_child_at(i as int);
                if !ins {
                    o.lemma_child_at(i as int);
                    assert(o.submodules@[i as int].1 == c);
                } else {
                    assert(!o.has_child(name@)) by {
                        if o.has_child(name@) {
                            let j = o.child_index(name@);
                            if j < i {
                                lemma_lex_irreflexive(name@);
                            } else {
                                o.lemma_child_at(i as int);
                                if j > i {
                                    lemma_lex_transitive(o.submodules@[i as int].0@, name@, o.submodules@[i as int].0@);
                                    lemma_lex_irreflexive(name@);
                                    lemma_lex_total(o.submodules@[i as int].0@, name@);
                                }
                            }
                        }
                    }
                    c.lemma_empty(mv.take(k + 1));
                }
                assert(mv.take(k + 1) =~= base.push(name@));
                assert(t.len() > 0 && t[0] == name@);
                assert(t.drop_first() =~= parent_path(mv).skip(k + 1));
                assert forall|p: Seq<Seq<char>>| p.len() > 0 && p[0] != name@ implies #[trigger] n.scope_at(p) == o.scope_at(p) by {
                    Mod::lemma_lookup_kept(o, n, i as int, ins, p[0]);
                }
                assert forall|p: Seq<Seq<char>>| p.len() > 0 && p[0] == name@ implies {
                    &&& #[trigger] n.scope_at(p) == cn.scope_at(p.drop_first())
                    &&& !ins ==> o.scope_at(p) == c.scope_at(p.drop_first())
                    &&& ins ==> o.scope_at(p) is None
                    &&& is_prefix(p, t) == is_prefix(p.drop_first(), t.drop_first())
                    &&& (p == t) == (p.drop_first() == t.drop_first())
                    &&& base + p =~= mv.take(k + 1) + p.drop_first()
                } by {
                    assert(p =~= seq![name@] + p.drop_first());
                    assert(t =~= seq![name@] + t.drop_first());
                    if is_prefix(p.drop_first(), t.drop_first()) {
                        assert(t.take(p.len() as int) =~= seq![name@] + t.drop_first().take(p.len() - 1));
                    }
                    if is_prefix(p, t) {
                        assert(t.drop_first().take(p.len() - 1) =~= t.take(p.len() as int).drop_first());
                    }
                }
                assert forall|p: Seq<Seq<char>>| #[trigger] n.has_scope(p) implies {
                    let s = n.scope_at(p).unwrap();
                    s.children_sorted() && s.leaves_placed(base + p)
                } by {
                    if p.len() == 0 {
                        assert(base + p =~= base);
                        assert(n.leaf_names() == o.leaf_names());
                    } else if p[0] == name@ {
                        assert(cn.has_scope(p.drop_first()));
                    } else {
                        assert(o.has_scope(p));
                    }
                }
                assert forall|p: Seq<Seq<char>>|
                    #[trigger] n.has_scope(p) == (o.has_scope(p) || is_prefix(p, t)) by {
                    if p.len() > 0 && p[0] == name@ {
                        assert(cn.has_scope(p.drop_first()) == (c.has_scope(p.drop_first()) || is_prefix(p.drop_first(), t.drop_first())));
                    } else if p.len() > 0 {
                        assert(!is_prefix(p, t)) by {
                            if p.len() <= t.len() {
                                assert(t.take(p.len() as int)[0] == t[0]);
                            }
                        }
                    }
                }
                assert forall|p: Seq<Seq<char>>|
                    #[trigger] n.leaves_at(p).to_multiset() == if p == t {
                        o.leaves_at(p).to_multiset().insert(mv)
                    } else {
                        o.leaves_at(p).to_multiset()
                    } by {
                    if p.len() > 0 && p[0] == name@ {
                        let q = p.drop_first();
                        assert(n.leaves_at(p) == cn.leaves_at(q));
                        if ins {
                            assert(c.leaves_at(q) =~= Seq::<Seq<Seq<char>>>::empty());
                            assert(o.leaves_at(p) =~= Seq::<Seq<Seq<char>>>::empty());
                        } else {
                            assert(o.leaves_at(p) == c.leaves_at(q));
                        }
                        assert(cn.leaves_at(p.drop_first()).to_multiset() == if p.drop_first() == t.drop_first() {
                            c.leaves_at(p.drop_first()).to_multiset().insert(mv)
                        } else {
                            c.leaves_at(p.drop_first()).to_multiset()
                        });
                    } else if p.len() == 0 {
                        assert(n.leaf_names() == o.leaf_names());
                    } else {
                        assert(p != t);
                        assert(n.scope_at(p) == o.scope_at(p));
                    }
                }
            }
        }
    }

    /// With child names strictly increasing, inserting or replacing the child
    /// at `i` leaves the child found under any other name as it was.
    proof fn lemma_lookup_kept(o: Mod, n: Mod, i: int, ins: bool, x: Seq<char>)
        requires
            o.children_sorted(),
            n.children_sorted(),
            0 <= i < n.submodules@.len(),
            ins ==> i <= o.submodules@.len(),
            !ins ==> i < o.submodules@.len(),
            x != n.submodules@[i].0@,
            ins ==> n.submodules@ == o.submodules@.insert(i, n.submodules@[i]),
            !ins ==> n.submodules@ == o.submodules@.update(i, n.submodules@[i]),
            !ins ==> o.submodules@[i].0@ == n.submodules@[i].0@,
        ensures
            n.has_child(x) == o.has_child(x),
            o.has_child(x) ==> n.submodules@[n.child_index(x)].1 == o.submodules@[o.child_index(x)].1,
    {
        if ins {
            o.submodules@.insert_ensures(i, n.submodules@[i]);
        }
        if o.has_child(x) {
            let jo = o.child_index(x);
            let jn = if ins && jo >= i { jo + 1 } else { jo };
            assert(n.submodules@[jn] == o.submodules@[jo]);
            n.lemma_child_at(jn);
        }
        if n.has_child(x) {
            let jn = n.child_index(x);
            let jo = if ins && jn > i { jn - 1 } else { jn };
            assert(o.submodules@[jo] == n.submodules@[jn]);
            assert(o.submodules@[jo].0@ == x);
        }
    }

    /// Inserting a child between the names that precede and follow its own
    /// keeps child names strictly increasing.
    proof fn lemma_sorted_after_insert(o: Mod, n: Mod, i: int, e: (String, Mod))
        requires
            o.children_sorted(),
            0 <= i <= o.submodules@.len(),
            n.submodules@ == o.submodules@.insert(i, e),
            forall|j: int| 0 <= j < i ==> lex_lt(#[trigger] o.submodules@[j].0@, e.0@),
            i < o.submodules@.len() ==> lex_lt(e.0@, o.submodules@[i].0@),
        ensures
            n.children_sorted(),
    {
        o.submodules@.insert_ensures(i, e);
        assert forall|a: int, b: int| 0 <= a < b < n.submodules@.len() implies lex_lt(
            #[trigger] n.submodules@[a].0@,
            #[trigger] n.submodules@[b].0@,
        ) by {
            if a < i && b > i {
                assert(lex_lt(o.submodules@[a].0@, o.submodules@[b - 1].0@));
            } else if a == i && b > i + 1 {
                assert(lex_lt(o.submodules@[i].0@, o.submodules@[b - 1].0@));
                lemma_lex_transitive(e.0@, o.submodules@[i].0@, o.submodules@[b - 1].0@);
            } else if a > i {
                assert(lex_lt(o.submodules@[a - 1].0@, o.submodules@[b - 1].0@));
            }
        }
    }

    /// The first position whose child name does not come before `name`.
    fn child_slot(&self, name: &String) -> (i: usize)
        ensures
            i <= self.submodules@.len(),
            forall|j: int| 0 <= j < i ==> lex_lt(#[trigger] self.submodules@[j].0@, name@),
            i < self.submodules@.len() ==> !lex_lt(self.submodules@[i as int].0@, name@),
    {
        let mut i: usize = 0;
        while i < self.submodules.len()
            invariant
                i <= self.submodules@.len(),
                forall|j: int| 0 <= j < i ==> lex_lt(#[trigger] self.submodules@[j].0@, name@),
            decreases self.submodules@.len() - i,
        {
            if !str_lt(self.submodules[i].0.as_str(), name.as_str()) {
                return i;
            }
            i = i + 1;
        }
        i
    }

    /// The first position whose name's last segment comes after `key`.
    fn leaf_slot(&self, key: &String) -> (i: usize)
        requires
            forall|j: int| 0 <= j < self.contents@.len() ==> (#[trigger] self.leaf_names()[j]).len() > 0,
        ensures
            i <= self.contents@.len(),
            forall|j: int| 0 <= j < i ==> !lex_lt(key@, (#[trigger] self.leaf_names()[j]).last()),
            i < self.contents@.len() ==> lex_lt(key@, self.leaf_names()[i as int].last()),
    {
        let mut i: usize = 0;
        while i < self.contents.len()
            invariant
                i <= self.contents@.len(),
                forall|j: int| 0 <= j < self.contents@.len() ==> (#[trigger] self.leaf_names()[j]).len() > 0,
                forall|j: int| 0 <= j < i ==> !lex_lt(key@, (#[trigger] self.leaf_names()[j]).last()),
            decreases self.contents@.len() - i,
        {
            let leaf = &self.contents[i];
            assert(self.leaf_names()[i as int] == module_view(*leaf));
            assert(leaf@.len() > 0);
            let last = leaf.len() - 1;
            if str_lt(key.as_str(), leaf[last].as_str()) {
                return i;
            }
            i = i + 1;
        }
        i
    }

    /// Adds `module` to the names of this scope, after those that come before or equal it.
    fn insert_leaf(&mut self, module: Module)
        requires
            module@.len() > 0,
            old(self).leaves_placed(parent_path(module_view(module))),
        ensures
            final(self).submodules == old(self).submodules,
            final(self).leaf_names().to_multiset() == old(self).leaf_names().to_multiset().insert(module_view(module)),
            final(self).leaves_placed(parent_path(module_view(module))),
    {
        let ghost mv = module_view(module);
        let ghost base = parent_path(mv);
        let ghost o = *self;
        let last = module.len() - 1;
        let i = self.leaf_slot(&module[last]);
        assert(module[last as int]@ == mv.last());
        self.contents.insert(i, module);
        assert(self.leaf_names() =~= o.leaf_names().insert(i as int, mv));
        proof {
            o.leaf_names().insert_ensures(i as int, mv);
            to_multiset_insert(o.leaf_names(), i as int, mv);
        }
        let ghost ln = self.leaf_names();
        assert forall|a: int, b: int| 0 <= a < b < self.contents@.len() implies !lex_lt(
            (#[trigger] ln[b]).last(),
            (#[trigger] ln[a]).last(),
        ) by {
            let ol = o.leaf_names();
            if a < i && b > i {
                assert(!lex_lt(ol[b - 1].last(), ol[a].last()));
            } else if a == i && b > i {
                if lex_lt(ol[b - 1].last(), mv.last()) {
                    if b - 1 > i {
                        assert(!lex_lt(ol[b - 1].last(), ol[i as int].last()));
                    }
                    lemma_lex_transitive(ol[b - 1].last(), mv.last(), ol[i as int].last());
                    lemma_lex_irreflexive(ol[b - 1].last());
                }
            } else if a > i {
                assert(!lex_lt(ol[b - 1].last(), ol[a - 1].last()));
            }
        }
    }

}

impl Default for Mod {
    /// A tree with the root scope alone, holding no name.
    fn default() -> (r: Self)
        ensures
            r.is_empty(),
            r.wf(),
            forall|p: Seq<Seq<char>>| #[trigger] r.has_scope(p) <==> p.len() == 0,
            forall|p: Seq<Seq<char>>| #[trigger] r.leaves_at(p).len() == 0,
    {
        let r = Mod { submodules: Vec::new(), contents: Vec::new() };
        proof {
            r.lemma_empty(Seq::empty());
        }
        r
    }
}

/// Writes the entry point for a tree: the scopes as nested blocks, and an
/// inclusion, gated or not, for each name.
pub struct LibGenerator {
    prefix: String,
    feature_gates: bool,
    indent: String,
    buf: String,
}

impl LibGenerator {
    /// Appends to `buf` the entry point for `mods` under `config`: the
    /// inclusion of the file descriptor set first, if there is one, then the
    /// rendering of the root scope at no indentation.
    pub fn generate_librs(config: &Config, mods: &Mod, buf: &mut String)
        ensures
            final(buf)@ == old(buf)@ + librs_text(*mods, *config),
    {
        let prefix = match &config.gen_dir {
            Some(d) => d.clone(),
            None => String::new(),
        };
        let mut generator = LibGenerator {
            prefix,
            feature_gates: config.feature_gates,
            indent: String::new(),
            buf: String::new(),
        };
        if let Some(set) = &config.file_descriptor_set_path {
            generator.push_file_descriptor_set(set);
        }
        let ghost fds = generator.buf@;
        assert(fds =~= descriptor_text(*config));
        generator.push_mod(mods);
        buf.append(generator.buf.as_str());
        assert(final(buf)@ =~= old(buf)@ + librs_text(*mods, *config));
    }

    fn push_file_descriptor_set(&mut self, set_path: &String)
        requires
            old(self).indent@.len() == 0,
        ensures
            final(self).buf@ == old(self).buf@ + include_line(
                Seq::empty(),
                old(self).prefix@,
                set_path@,
            ),
            final(self).prefix == old(self).prefix,
            final(self).feature_gates == old(self).feature_gates,
            final(self).indent == old(self).indent,
    {
        self.buf.append("include!(\"");
        self.buf.append(self.prefix.as_str());
        self.buf.append(set_path.as_str());
        self.buf.append(".rs\");\n");
        assert(final(self).buf@ =~= old(self).buf@ + include_line(Seq::empty(), old(self).prefix@, set_path@));
    }

    fn push_mod(&mut self, mods: &Mod)
        ensures
            final(self).buf@ == old(self).buf@ + mods.render(
                old(self).indent@,
                old(self).prefix@,
                old(self).feature_gates,
            ),
            final(self).prefix == old(self).prefix,
            final(self).feature_gates == old(self).feature_gates,
            final(self).indent == old(self).indent,
        decreases mods,
    {
        let ghost start = self.buf@;
        let ghost ind = self.indent@;
        let ghost prefix = self.prefix@;
        let ghost gates = self.feature_gates;
        let ghost whole = mods.render_from(0, ind, prefix, gates);
        let mut i: usize = 0;
        while i < mods.submodules.len()
            invariant
                i <= mods.submodules@.len(),
                self.indent@ == ind,
                self.prefix@ == prefix,
                self.feature_gates == gates,
                self.prefix == old(self).prefix,
                self.indent == old(self).indent,
                self.buf@ + mods.render_from(i as int, ind, prefix, gates) == start + whole,
            decreases mods.submodules@.len() - i,
        {
            let entry = &mods.submodules[i];
            let ghost before = self.buf@;
            self.push_indent();
            self.buf.append("pub mod ");
            self.buf.append(entry.0.as_str());
            self.buf.append(" {\n");
            let saved = self.indent.clone();
            self.indent.append("    ");
            self.push_mod(&entry.1);
            self.indent = saved;
            self.push_indent();
            self.buf.append("}\n");
            assert(self.buf@ =~= before + open_line(ind, entry.0@) + entry.1.render_from(
                0,
                ind + indent_unit(),
                prefix,
                gates,
            ) + close_line(ind));
            i = i + 1;
        }
        let ghost mid = self.buf@;
        let mut j: usize = 0;
        assert(mods.leaf_names().take(0) =~= Seq::<Seq<Seq<char>>>::empty());
        while j < mods.contents.len()
            invariant
                j <= mods.contents@.len(),
                self.indent@ == ind,
                self.prefix@ == prefix,
                self.feature_gates == gates,
                self.prefix == old(self).prefix,
                self.indent == old(self).indent,
                self.buf@ == mid + leaf_lines(mods.leaf_names().take(j as int), ind, prefix, gates),
            decreases mods.contents@.len() - j,
        {
            let package = join_dotted(&mods.contents[j]);
            let ghost before = self.buf@;
            if self.feature_gates {
                let feature = feature_of(&package);
                self.push_indent();
                self.buf.append("#[cfg(feature = \"");
                self.buf.append(feature.as_str());
                self.buf.append("\")]\n");
            }
            self.push_indent();
            self.buf.append("include!(\"");
            self.buf.append(self.prefix.as_str());
            self.buf.append(package.as_str());
            self.buf.append(".rs\");\n");
            assert(mods.leaf_names()[j as int] == module_view(mods.contents@[j as int]));
            assert(mods.leaf_names().take(j + 1).drop_last() =~= mods.leaf_names().take(j as int));
            assert(self.buf@ =~= before + leaf_text(mods.leaf_names()[j as int], ind, prefix, gates));
            j = j + 1;
        }
        assert(mods.leaf_names().take(j as int) =~= mods.leaf_names());
    }

    fn push_indent(&mut self)
        ensures
            final(self).buf@ == old(self).buf@ + old(self).indent@,
            final(self).prefix == old(self).prefix,
            final(self).feature_gates == old(self).feature_gates,
            final(self).indent == old(self).indent,
    {
        self.buf.append(self.indent.as_str());
    }
}

/// Joining brace-free segments gives brace-free text.
proof fn lemma_dotted_brace_free(n: Seq<Seq<char>>)
    requires
        forall|i: int| 0 <= i < n.len() ==> brace_free(#[trigger] n[i]),
    ensures
        brace_free(dotted(n)),
    decreases n.len(),
{
    if n.len() > 1 {
        lemma_dotted_brace_free(n.drop_last());
        lemma_brace_free_concat(dotted(n.drop_last()), seq!['.']);
        lemma_brace_free_concat(dotted(n.drop_last()) + seq!['.'], n.last());
    }
}

/// The feature of brace-free text is brace-free.
proof fn lemma_feature_brace_free(s: Seq<char>)
    requires
        brace_free(s),
    ensures
        brace_free(feature_name(s)),
    decreases s.len(),
{
    if s.len() >= 2 && s[0] == 'r' && s[1] == '#' {
        lemma_feature_brace_free(s.skip(2));
    } else if s.len() > 0 {
        lemma_feature_brace_free(s.drop_first());
        let c = if s[0] == '.' { '_' } else { s[0] };
        lemma_brace_free_concat(seq![c], feature_name(s.drop_first()));
    }
}

/// Every literal piece of the output but the scope braces is free of braces.
proof fn lemma_literals_brace_free()
    ensures
        brace_free("pub mod "@),
        brace_free("include!(\""@),
        brace_free(".rs\");\n"@),
        brace_free("#[cfg(feature = \""@),
        brace_free("\")]\n"@),
        brace_free(indent_unit()),
        " {\n"@ =~= seq![' ', '{', '\n'],
        "}\n"@ =~= seq!['}', '\n'],
{
    reveal_strlit("pub mod ");
    reveal_strlit("include!(\"");
    reveal_strlit(".rs\");\n");
    reveal_strlit("#[cfg(feature = \"");
    reveal_strlit("\")]\n");
    reveal_strlit("    ");
    reveal_strlit(" {\n");
    reveal_strlit("}\n");
}

/// The lines of brace-free names hold no brace.
proof fn lemma_leaf_lines_brace_free(ns: Seq<Seq<Seq<char>>>, ind: Seq<char>, prefix: Seq<char>, gates: bool)
    requires
        forall|i: int, j: int| 0 <= i < ns.len() && 0 <= j < ns[i].len() ==> brace_free(#[trigger] ns[i][j]),
        brace_free(ind),
        brace_free(prefix),
    ensures
        brace_free(leaf_lines(ns, ind, prefix, gates)),
    decreases ns.len(),
{
    if ns.len() > 0 {
        let n = ns.last();
        assert forall|j: int| 0 <= j < n.len() implies brace_free(#[trigger] n[j]) by {
            assert(ns[ns.len() - 1][j] == n[j]);
        }
        assert forall|i: int, j: int| 0 <= i < ns.drop_last().len() && 0 <= j < ns.drop_last()[i].len() implies brace_free(#[trigger] ns.drop_last()[i][j]) by {
            assert(ns.drop_last()[i] == ns[i]);
        }
        lemma_leaf_lines_brace_free(ns.drop_last(), ind, prefix, gates);
        lemma_literals_brace_free();
        lemma_dotted_brace_free(n);
        let path = dotted(n);
        lemma_brace_free_concat(ind, "include!(\""@);
        lemma_brace_free_concat(ind + "include!(\""@, prefix);
        lemma_brace_free_concat(ind + "include!(\""@ + prefix, path);
        lemma_brace_free_concat(ind + "include!(\""@ + prefix + path, ".rs\");\n"@);
        let inc = include_line(ind, prefix, path);
        if gates {
            lemma_feature_brace_free(path);
            let f = feature_name(path);
            lemma_brace_free_concat(ind, "#[cfg(feature = \""@);
            lemma_brace_free_concat(ind + "#[cfg(feature = \""@, f);
            lemma_brace_free_concat(ind + "#[cfg(feature = \""@ + f, "\")]\n"@);
            lemma_brace_free_concat(guard_line(ind, f), inc);
        } else {
            assert(Seq::<char>::empty() + inc =~= inc);
        }
        lemma_brace_free_concat(leaf_lines(ns.drop_last(), ind, prefix, gates), leaf_text(n, ind, prefix, gates));
    }
}

impl Mod {
    /// The segments of every child name and every held name in this tree are free of braces.
    pub closed spec fn names_brace_free(self) -> bool
        decreases self,
    {
        &&& forall|i: int, j: int|
            0 <= i < self.contents@.len() && 0 <= j < self.leaf_names()[i].len() ==> brace_free(
                #[trigger] self.leaf_names()[i][j],
            )
        &&& forall|i: int|
            0 <= i < self.submodules@.len() ==> brace_free(#[trigger] self.submodules@[i].0@)
                && self.submodules@[i].1.names_brace_free()
    }

    /// The text of a scope leaves the brace depth as it found it.
    proof fn lemma_render_from_balanced(self, i: int, ind: Seq<char>, prefix: Seq<char>, gates: bool, d: int)
        requires
            self.names_brace_free(),
            brace_free(ind),
            brace_free(prefix),
            0 <= i,
            d >= 0,
        ensures
            brace_depth(self.render_from(i, ind, prefix, gates), d) == d,
        decreases self, self.submodules@.len() - i,
    {
        if i < self.submodules@.len() {
            let name = self.submodules@[i].0@;
            let child = self.submodules@[i].1;
            lemma_literals_brace_free();
            lemma_brace_free_concat(ind, "pub mod "@);
            lemma_brace_free_concat(ind + "pub mod "@, name);
            let head = ind + "pub mod "@ + name;
            lemma_brace_free_concat(ind, indent_unit());
            let inner = child.render_from(0, ind + indent_unit(), prefix, gates);
            let rest = self.render_from(i + 1, ind, prefix, gates);
            child.lemma_render_from_balanced(0, ind + indent_unit(), prefix, gates, d + 1);
            self.lemma_render_from_balanced(i + 1, ind, prefix, gates, d);
            let open = open_line(ind, name);
            let close = close_line(ind);
            assert(open == head + " {\n"@);
            lemma_brace_depth_concat(head, " {\n"@, d);
            lemma_brace_free_depth(head, d);
            let ob = " {\n"@;
            assert(ob.drop_first() =~= seq!['{', '\n']);
            assert(ob.drop_first().drop_first() =~= seq!['\n']);
            assert(ob.drop_first().drop_first().drop_first() =~= Seq::<char>::empty());
            assert(brace_free(seq!['\n']));
            lemma_brace_free_depth(seq!['\n'], d + 1);
            lemma_brace_free_depth(seq!['\n'], d);
            assert(brace_depth(ob.drop_first(), d) == d + 1);
            assert(brace_depth(ob, d) == d + 1);
            lemma_brace_depth_concat(ind, "}\n"@, d + 1);
            lemma_brace_free_depth(ind, d + 1);
            let cb = "}\n"@;
            assert(cb.drop_first() =~= seq!['\n']);
            assert(cb.drop_first().drop_first() =~= Seq::<char>::empty());
            assert(brace_depth(cb, d + 1) == d);
            assert(brace_depth(close, d + 1) == d);
            lemma_brace_depth_concat(open, inner, d);
            lemma_brace_depth_concat(open + inner, close, d);
            lemma_brace_depth_concat(open + inner + close, rest, d);
        } else {
            lemma_leaf_lines_brace_free(self.leaf_names(), ind, prefix, gates);
            lemma_brace_free_depth(leaf_lines(self.leaf_names(), ind, prefix, gates), d);
        }
    }
}

/// Scope blocks are balanced and nested: read from any depth, the entry
/// point never closes more than it opened, and ends at the depth it began,
/// whatever the tree, when no name, directory or path holds a brace.
pub proof fn lemma_scopes_balanced(mods: Mod, cfg: Config, d: int)
    requires
        mods.names_brace_free(),
        brace_free(prefix_of(cfg)),
        cfg.file_descriptor_set_path matches Some(p) ==> brace_free(p@),
        d >= 0,
    ensures
        brace_depth(librs_text(mods, cfg), d) == d,
{
    let body = mods.render(Seq::empty(), prefix_of(cfg), cfg.feature_gates);
    assert(brace_free(Seq::<char>::empty()));
    mods.lemma_render_from_balanced(0, Seq::empty(), prefix_of(cfg), cfg.feature_gates, d);
    let fds = descriptor_text(cfg);
    if let Some(p) = cfg.file_descriptor_set_path {
        lemma_literals_brace_free();
        let e = Seq::<char>::empty();
        lemma_brace_free_concat(e, "include!(\""@);
        lemma_brace_free_concat(e + "include!(\""@, prefix_of(cfg));
        lemma_brace_free_concat(e + "include!(\""@ + prefix_of(cfg), p@);
        lemma_brace_free_concat(e + "include!(\""@ + prefix_of(cfg) + p@, ".rs\");\n"@);
    }
    assert(brace_free(fds));
    lemma_brace_free_depth(fds, d);
    lemma_brace_depth_concat(fds, body, d);
}

/// Rendering is a function of the tree and the configuration alone: two
/// renderings of one tree under one configuration are the same text.
pub proof fn lemma_render_deterministic(m1: Mod, m2: Mod, c1: Config, c2: Config)
    requires
        m1 == m2,
        c1 == c2,
    ensures
        librs_text(m1, c1) == librs_text(m2, c2),
{
}

/// In a well-formed tree a name is held by one scope only: the scope at its
/// path, all its segments but the last.
pub proof fn lemma_name_in_one_scope(m: Mod, n: Seq<Seq<char>>, p: Seq<Seq<char>>)
    requires
        m.wf(),
        m.leaves_at(p).contains(n),
    ensures
        p == parent_path(n),
{
    let s = m.scope_at(p).unwrap();
    assert(m.has_scope(p));
    let k = s.leaf_names().index_of(n);
    assert(s.leaf_names()[k] == n);
    assert(Seq::<Seq<char>>::empty() + p =~= p);
}

/// Joining segments without line breaks gives one line.
proof fn lemma_dotted_single_line(n: Seq<Seq<char>>)
    requires
        forall|i: int| 0 <= i < n.len() ==> single_line(#[trigger] n[i]),
    ensures
        single_line(dotted(n)),
    decreases n.len(),
{
    if n.len() > 1 {
        lemma_dotted_single_line(n.drop_last());
        lemma_single_line_concat(dotted(n.drop_last()), seq!['.']);
        lemma_single_line_concat(dotted(n.drop_last()) + seq!['.'], n.last());
    }
}

/// The feature of a single line is a single line.
proof fn lemma_feature_single_line(s: Seq<char>)
    requires
        single_line(s),
    ensures
        single_line(feature_name(s)),
    decreases s.len(),
{
    if s.len() >= 2 && s[0] == 'r' && s[1] == '#' {
        lemma_feature_single_line(s.skip(2));
    } else if s.len() > 0 {
        lemma_feature_single_line(s.drop_first());
        let c = if s[0] == '.' { '_' } else { s[0] };
        lemma_single_line_concat(seq![c], feature_name(s.drop_first()));
    }
}

/// What each kind of line begins with, and that each is one line.
proof fn lemma_line_shapes(name: Seq<char>, prefix: Seq<char>, path: Seq<char>, feature: Seq<char>)
    requires
        single_line(name),
        single_line(prefix),
        single_line(path),
        single_line(feature),
    ensures
        ({
            let o = "pub mod "@ + name + " {\n"@;
            o.len() > 0 && o[0] == 'p' && o.last() == '\n' && single_line(o.drop_last())
        }),
        ({
            let c = "}\n"@;
            c.len() > 0 && c[0] == '}' && c.last() == '\n' && single_line(c.drop_last())
        }),
        ({
            let i = "include!(\""@ + prefix + path + ".rs\");\n"@;
            i.len() > 0 && i[0] == 'i' && i.last() == '\n' && single_line(i.drop_last())
        }),
        ({
            let g = "#[cfg(feature = \""@ + feature + "\")]\n"@;
            g.len() > 0 && g[0] == '#' && g.last() == '\n' && single_line(g.drop_last())
        }),
{
    reveal_strlit("pub mod ");
    reveal_strlit(" {\n");
    reveal_strlit("}\n");
    reveal_strlit("include!(\"");
    reveal_strlit(".rs\");\n");
    reveal_strlit("#[cfg(feature = \"");
    reveal_strlit("\")]\n");
    let o = "pub mod "@ + name + " {\n"@;
    assert(single_line("pub mod "@));
    assert(single_line(seq![' ', '{']));
    lemma_single_line_concat("pub mod "@, name);
    lemma_single_line_concat("pub mod "@ + name, seq![' ', '{']);
    assert(o.drop_last() =~= "pub mod "@ + name + seq![' ', '{']);
    assert("}\n"@.drop_last() =~= seq!['}']);
    assert(single_line(seq!['}']));
    let i = "include!(\""@ + prefix + path + ".rs\");\n"@;
    let t = seq!['.', 'r', 's', '"', ')', ';'];
    assert(single_line("include!(\""@));
    assert(single_line(t));
    lemma_single_line_concat("include!(\""@, prefix);
    lemma_single_line_concat("include!(\""@ + prefix, path);
    lemma_single_line_concat("include!(\""@ + prefix + path, t);
    assert(i.drop_last() =~= "include!(\""@ + prefix + path + t);
    let g = "#[cfg(feature = \""@ + feature + "\")]\n"@;
    let u = seq!['"', ')', ']'];
    assert(single_line("#[cfg(feature = \""@));
    assert(single_line(u));
    lemma_single_line_concat("#[cfg(feature = \""@, feature);
    lemma_single_line_concat("#[cfg(feature = \""@ + feature, u);
    assert(g.drop_last() =~= "#[cfg(feature = \""@ + feature + u);
}

/// Taking the guards out of the gated lines of names gives the ungated lines.
proof fn lemma_leaf_lines_strip(ns: Seq<Seq<Seq<char>>>, ind: Seq<char>, prefix: Seq<char>)
    requires
        forall|i: int, j: int| 0 <= i < ns.len() && 0 <= j < ns[i].len() ==> single_line(#[trigger] ns[i][j]),
        all_spaces(ind),
        single_line(prefix),
    ensures
        strip_guards(leaf_lines(ns, ind, prefix, true)) == leaf_lines(ns, ind, prefix, false),
        whole_lines(leaf_lines(ns, ind, prefix, true)),
        whole_lines(leaf_lines(ns, ind, prefix, false)),
    decreases ns.len(),
{
    if ns.len() > 0 {
        let n = ns.last();
        assert forall|j: int| 0 <= j < n.len() implies single_line(#[trigger] n[j]) by {
            assert(ns[ns.len() - 1][j] == n[j]);
        }
        assert forall|i: int, j: int| 0 <= i < ns.drop_last().len() && 0 <= j < ns.drop_last()[i].len() implies single_line(#[trigger] ns.drop_last()[i][j]) by {
            assert(ns.drop_last()[i] == ns[i]);
        }
        lemma_leaf_lines_strip(ns.drop_last(), ind, prefix);
        lemma_dotted_single_line(n);
        let path = dotted(n);
        lemma_feature_single_line(path);
        let f = feature_name(path);
        lemma_line_shapes(Seq::empty(), prefix, path, f);
        let ir = "include!(\""@ + prefix + path + ".rs\");\n"@;
        let gr = "#[cfg(feature = \""@ + f + "\")]\n"@;
        lemma_strip_one(ind, ir);
        lemma_strip_one(ind, gr);
        let inc = include_line(ind, prefix, path);
        let grd = guard_line(ind, f);
        assert(inc =~= ind + ir);
        assert(grd =~= ind + gr);
        assert(leaf_text(n, ind, prefix, false) =~= inc);
        assert(leaf_text(n, ind, prefix, true) == grd + inc);
        lemma_strip_concat(grd, inc);
        assert(strip_guards(grd) + strip_guards(inc) =~= inc);
        let before_t = leaf_lines(ns.drop_last(), ind, prefix, true);
        let before_f = leaf_lines(ns.drop_last(), ind, prefix, false);
        lemma_strip_concat(before_t, grd + inc);
        lemma_whole_lines_concat(grd, inc);
        lemma_whole_lines_concat(before_t, grd + inc);
        lemma_whole_lines_concat(before_f, inc);
    }
}

impl Mod {
    /// No child name and no segment of a held name in this tree has a line break.
    pub closed spec fn names_single_line(self) -> bool
        decreases self,
    {
        &&& forall|i: int, j: int|
            0 <= i < self.contents@.len() && 0 <= j < self.leaf_names()[i].len() ==> single_line(
                #[trigger] self.leaf_names()[i][j],
            )
        &&& forall|i: int|
            0 <= i < self.submodules@.len() ==> single_line(#[trigger] self.submodules@[i].0@)
                && self.submodules@[i].1.names_single_line()
    }

    /// Taking the guards out of a gated scope gives the ungated scope.
    proof fn lemma_render_from_strip(self, i: int, ind: Seq<char>, prefix: Seq<char>)
        requires
            self.names_single_line(),
            all_spaces(ind),
            single_line(prefix),
            0 <= i,
        ensures
            strip_guards(self.render_from(i, ind, prefix, true)) == self.render_from(i, ind, prefix, false),
            whole_lines(self.render_from(i, ind, prefix, true)),
            whole_lines(self.render_from(i, ind, prefix, false)),
        decreases self, self.submodules@.len() - i,
    {
        if i < self.submodules@.len() {
            let name = self.submodules@[i].0@;
            let child = self.submodules@[i].1;
            let ind2 = ind + indent_unit();
            assert(all_spaces(ind2)) by {
                reveal_strlit("    ");
            }
            child.lemma_render_from_strip(0, ind2, prefix);
            self.lemma_render_from_strip(i + 1, ind, prefix);
            lemma_line_shapes(name, prefix, Seq::empty(), Seq::empty());
            let or = "pub mod "@ + name + " {\n"@;
            lemma_strip_one(ind, or);
            lemma_strip_one(ind, "}\n"@);
            let open = open_line(ind, name);
            let close = close_line(ind);
            assert(open =~= ind + or);
            let in_t = child.render_from(0, ind2, prefix, true);
            let in_f = child.render_from(0, ind2, prefix, false);
            let rest_t = self.render_from(i + 1, ind, prefix, true);
            let rest_f = self.render_from(i + 1, ind, prefix, false);
            assert(self.render_from(i, ind, prefix, true) =~= open + (in_t + (close + rest_t)));
            assert(self.render_from(i, ind, prefix, false) =~= open + (in_f + (close + rest_f)));
            lemma_strip_concat(close, rest_t);
            lemma_strip_concat(in_t, close + rest_t);
            lemma_strip_concat(open, in_t + (close + rest_t));
            lemma_whole_lines_concat(close, rest_t);
            lemma_whole_lines_concat(in_t, close + rest_t);
            lemma_whole_lines_concat(open, in_t + (close + rest_t));
            lemma_whole_lines_concat(close, rest_f);
            lemma_whole_lines_concat(in_f, close + rest_f);
            lemma_whole_lines_concat(open, in_f + (close + rest_f));
        } else {
            lemma_leaf_lines_strip(self.leaf_names(), ind, prefix);
        }
    }
}

/// Gating changes no inclusion, only adds guards: taking every guard line
/// out of the entry point rendered with gates gives the one rendered
/// without, when no name, directory or path holds a line break.
pub proof fn lemma_gating_keeps_inclusions(mods: Mod, gated: Config, plain: Config)
    requires
        gated.feature_gates,
        !plain.feature_gates,
        gated.gen_dir == plain.gen_dir,
        gated.file_descriptor_set_path == plain.file_descriptor_set_path,
        mods.names_single_line(),
        single_line(prefix_of(gated)),
        gated.file_descriptor_set_path matches Some(p) ==> single_line(p@),
    ensures
        strip_guards(librs_text(mods, gated)) == librs_text(mods, plain),
{
    let prefix = prefix_of(gated);
    assert(all_spaces(Seq::<char>::empty()));
    mods.lemma_render_from_strip(0, Seq::empty(), prefix);
    let body_t = mods.render(Seq::empty(), prefix, true);
    let fds = descriptor_text(gated);
    assert(descriptor_text(plain) == fds);
    if let Some(p) = gated.file_descriptor_set_path {
        lemma_line_shapes(Seq::empty(), prefix, p@, Seq::empty());
        let ir = "include!(\""@ + prefix + p@ + ".rs\");\n"@;
        lemma_strip_one(Seq::empty(), ir);
        assert(fds =~= Seq::<char>::empty() + ir);
    } else {
        assert(strip_guards(fds) =~= fds);
    }
    lemma_strip_concat(fds, body_t);
}

} // verus!
