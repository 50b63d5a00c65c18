//! The table from each feature to the features it depends on, and its
//! substitution into a manifest template.
use vstd::prelude::*;
use crate::text::single_line;
use crate::order::{lex_lt, lemma_lex_irreflexive, lemma_lex_total, lemma_lex_transitive, str_lt};

verus! {

/// The characters of each string.
pub open spec fn strings_view(v: Seq<String>) -> Seq<Seq<char>> {
    v.map_values(|s: String| s@)
}

/// Each element comes strictly before the next: sorted, with no repeat.
pub open spec fn strictly_sorted(s: Seq<Seq<char>>) -> bool {
    forall|i: int, j: int| 0 <= i < j < s.len() ==> lex_lt(#[trigger] s[i], #[trigger] s[j])
}

/// In a strictly sorted sequence an element sits at one position only.
pub proof fn lemma_sorted_unique(s: Seq<Seq<char>>, i: int, j: int)
    requires
        strictly_sorted(s),
        0 <= i < s.len(),
        0 <= j < s.len(),
        s[i] == s[j],
    ensures
        i == j,
{
    lemma_lex_irreflexive(s[i]);
    if i < j {
        assert(lex_lt(s[i], s[j]));
    } else if j < i {
        assert(lex_lt(s[j], s[i]));
    }
}

/// A name in quotes.
pub open spec fn quoted(d: Seq<char>) -> Seq<char> {
    "\""@ + d + "\""@
}

/// The names quoted and separated by `, `.
pub open spec fn quoted_list(ds: Seq<Seq<char>>) -> Seq<char>
    decreases ds.len(),
{
    if ds.len() == 0 {
        Seq::empty()
    } else if ds.len() == 1 {
        quoted(ds[0])
    } else {
        quoted_list(ds.drop_last()) + ", "@ + quoted(ds.last())
    }
}

/// The manifest line of a feature and its dependencies.
pub open spec fn entry_line(f: Seq<char>, ds: Seq<Seq<char>>) -> Seq<char> {
    "\""@ + f + "\" = ["@ + quoted_list(ds) + "]\n"@
}

/// The lines of features `fs`, the `i`-th with dependencies `dss[i]`.
pub open spec fn entry_lines(fs: Seq<Seq<char>>, dss: Seq<Seq<Seq<char>>>) -> Seq<char>
    decreases fs.len(),
{
    if fs.len() == 0 {
        Seq::empty()
    } else {
        entry_lines(fs.drop_last(), dss.drop_last()) + entry_line(fs.last(), dss.last())
    }
}

/// The elements of `s` in lexicographic order.
pub open spec fn sorted_elems(s: Set<Seq<char>>) -> Seq<Seq<char>> {
    choose|q: Seq<Seq<char>>| strictly_sorted(q) && q.to_set() == s
}

/// The block substituted into a manifest for table `m`: one line per
/// feature, in lexicographic order, each listing its dependencies in
/// lexicographic order.
pub open spec fn manifest_block(m: Map<Seq<char>, Set<Seq<char>>>) -> Seq<char> {
    let fs = sorted_elems(m.dom());
    entry_lines(fs, Seq::new(fs.len(), |i: int| sorted_elems(m[fs[i]])))
}

/// The token of a template that the block replaces.
pub open spec fn placeholder() -> Seq<char> {
    "{{ features }}"@
}

/// The placeholder stands in `t` at position `i`.
pub open spec fn occurs_at(t: Seq<char>, i: int) -> bool {
    0 <= i && i + placeholder().len() <= t.len() && t.subrange(i, i + placeholder().len())
        == placeholder()
}

/// The placeholder stands somewhere in `t`.
pub open spec fn has_placeholder(t: Seq<char>) -> bool {
    exists|i: int| occurs_at(t, i)
}

/// The position of the first placeholder in `t`.
pub open spec fn first_placeholder(t: Seq<char>) -> int {
    choose|i: int| occurs_at(t, i) && forall|j: int| 0 <= j < i ==> !occurs_at(t, j)
}

/// `t` with its first placeholder replaced by `block`.
pub open spec fn fill(t: Seq<char>, block: Seq<char>) -> Seq<char> {
    let i = first_placeholder(t);
    t.take(i) + block + t.skip(i + placeholder().len())
}

/// Two strictly sorted sequences that hold the same elements are equal.
pub proof fn lemma_sorted_eq(a: Seq<Seq<char>>, b: Seq<Seq<char>>)
    requires
        strictly_sorted(a),
        strictly_sorted(b),
        a.to_set() == b.to_set(),
    ensures
        a == b,
    decreases a.len(),
{
    if a.len() == 0 {
        if b.len() > 0 {
            assert(b.to_set().contains(b[0]));
        }
        assert(a =~= b);
    } else if b.len() == 0 {
        assert(a.to_set().contains(a[0]));
    } else {
        assert(a.to_set().contains(b[0]));
        assert(b.to_set().contains(a[0]));
        let ka = a.index_of(b[0]);
        let kb = b.index_of(a[0]);
        if a[0] != b[0] {
            assert(lex_lt(a[0], a[ka]));
            assert(lex_lt(b[0], b[kb]));
            lemma_lex_transitive(a[0], b[0], a[0]);
            lemma_lex_irreflexive(a[0]);
        }
        let a1 = a.drop_first();
        let b1 = b.drop_first();
        assert forall|x: Seq<char>| a1.to_set().contains(x) <==> b1.to_set().contains(x) by {
            if a1.contains(x) {
                let k = a1.index_of(x);
                assert(a[k + 1] == x);
                assert(a.contains(x));
                assert(a.to_set().contains(x));
                assert(b.to_set().contains(x));
                assert(b.contains(x));
                let j = b.index_of(x);
                lemma_lex_irreflexive(x);
                if j == 0 {
                    assert(lex_lt(a[0], a[k + 1]));
                }
                assert(b1[j - 1] == x);
            }
            if b1.contains(x) {
                let k = b1.index_of(x);
                assert(b[k + 1] == x);
                assert(b.contains(x));
                assert(b.to_set().contains(x));
                assert(a.to_set().contains(x));
                assert(a.contains(x));
                let j = a.index_of(x);
                lemma_lex_irreflexive(x);
                if j == 0 {
                    assert(lex_lt(b[0], b[k + 1]));
                }
                assert(a1[j - 1] == x);
            }
        }
        assert(a1.to_set() =~= b1.to_set());
        lemma_sorted_eq(a1, b1);
        assert(a =~= seq![a[0]] + a1);
        assert(b =~= seq![b[0]] + b1);
    }
}

/// Puts `s` in its place in the strictly sorted `v`, unless it is there:
/// returns its position, and whether it was added.
fn insert_sorted(v: &mut Vec<String>, s: &String) -> (r: (usize, bool))
    requires
        strictly_sorted(strings_view(old(v)@)),
    ensures
        strictly_sorted(strings_view(final(v)@)),
        r.0 < final(v)@.len(),
        final(v)@[r.0 as int]@ == s@,
        r.1 == !strings_view(old(v)@).contains(s@),
        r.1 ==> r.0 <= old(v)@.len() && final(v)@ == old(v)@.insert(r.0 as int, *s),
        !r.1 ==> r.0 < old(v)@.len() && final(v)@ == old(v)@,
        strings_view(final(v)@).to_set() == strings_view(old(v)@).to_set().insert(s@),
{
    let ghost ov = strings_view(v@);
    let mut i: usize = 0;
    while i < v.len() && str_lt(v[i].as_str(), s.as_str())
        invariant
            i <= v@.len(),
            ov == strings_view(v@),
            forall|j: int| 0 <= j < i ==> lex_lt(#[trigger] ov[j], s@),
        decreases v@.len() - i,
    {
        i = i + 1;
    }
    if i < v.len() && v[i] == *s {
        assert(ov[i as int] == s@);
        assert(ov.contains(s@));
        assert(ov.to_set() =~= ov.to_set().insert(s@));
        return (i, false);
    }
    proof {
        if i < ov.len() {
            lemma_lex_total(ov[i as int], s@);
        }
        if ov.contains(s@) {
            let k = ov.index_of(s@);
            lemma_lex_irreflexive(s@);
            if k > i {
                assert(lex_lt(ov[i as int], ov[k]));
                lemma_lex_transitive(s@, ov[i as int], ov[k]);
            }
        }
    }
    v.insert(i, s.clone());
    let ghost nv = strings_view(v@);
    assert(nv =~= ov.insert(i as int, s@));
    proof {
        ov.insert_ensures(i as int, s@);
    }
    assert forall|a: int, b: int| 0 <= a < b < nv.len() implies lex_lt(#[trigger] nv[a], #[trigger] nv[b]) by {
        if a < i && b > i {
            assert(lex_lt(ov[a], ov[b - 1]));
        } else if a == i && b > i + 1 {
            assert(lex_lt(ov[i as int], ov[b - 1]));
            lemma_lex_transitive(s@, ov[i as int], ov[b - 1]);
        } else if a > i {
            assert(lex_lt(ov[a - 1], ov[b - 1]));
        }
    }
    assert forall|x: Seq<char>| nv.contains(x) <==> ov.contains(x) || x == s@ by {
        if nv.contains(x) {
            let k = nv.index_of(x);
            if k < i {
                assert(ov[k] == x);
            } else if k > i {
                assert(ov[k - 1] == x);
            }
        }
        if ov.contains(x) {
            let k = ov.index_of(x);
            if k < i {
                assert(nv[k] == x);
            } else {
                assert(nv[k + 1] == x);
            }
        }
        if x == s@ {
            assert(nv[i as int] == x);
        }
    }
    assert(nv.to_set() =~= ov.to_set().insert(s@));
    (i, true)
}

/// For each feature, the features it depends on; both kept in lexicographic
/// order, each feature and each dependency of a feature once.
pub struct FeatureTable {
    features: Vec<String>,
    deps: Vec<Vec<String>>,
}

impl FeatureTable {
    /// The features, in order.
    pub closed spec fn keys(self) -> Seq<Seq<char>> {
        strings_view(self.features@)
    }

    /// The dependencies of the `i`-th feature, in order.
    pub closed spec fn deps_of(self, i: int) -> Seq<Seq<char>> {
        strings_view(self.deps@[i]@)
    }

    /// Features and the dependencies of each are strictly sorted.
    pub closed spec fn wf(self) -> bool {
        &&& self.features@.len() == self.deps@.len()
        &&& strictly_sorted(self.keys())
        &&& forall|i: int| 0 <= i < self.deps@.len() ==> strictly_sorted(#[trigger] self.deps_of(i))
    }

    /// Replacing the entry at `i`, or inserting it there, changes the table
    /// at that entry's feature only.
    proof fn lemma_view_update(o: FeatureTable, n: FeatureTable, i: int, ins: bool)
        requires
            o.wf(),
            n.wf(),
            0 <= i < n.features@.len(),
            ins ==> 0 <= i <= o.features@.len() && n.features@ == o.features@.insert(i, n.features@[i])
                && n.deps@ == o.deps@.insert(i, n.deps@[i]),
            !ins ==> 0 <= i < o.features@.len() && n.features@ == o.features@ && n.deps@ == o.deps@.update(
                i,
                n.deps@[i],
            ),
        ensures
            n@ == o@.insert(n.keys()[i], n.deps_of(i).to_set()),
    {
        let f = n.keys()[i];
        let ok = o.keys();
        let nk = n.keys();
        if ins {
            o.features@.insert_ensures(i, n.features@[i]);
            o.deps@.insert_ensures(i, n.deps@[i]);
        }
        // position of an old entry among the new ones
        assert forall|g: Seq<char>| g != f implies (nk.contains(g) == ok.contains(g)) && (ok.contains(g)
            ==> n.deps_of(nk.index_of(g)) == o.deps_of(ok.index_of(g))) by {
            if ok.contains(g) {
                let jo = ok.index_of(g);
                let jn = if ins && jo >= i { jo + 1 } else { jo };
                assert(nk[jn] == g);
                lemma_sorted_unique(nk, jn, nk.index_of(g));
                assert(n.deps@[jn] == o.deps@[jo]);
            }
            if nk.contains(g) {
                let jn = nk.index_of(g);
                let jo = if ins && jn > i { jn - 1 } else { jn };
                assert(ok[jo] == g);
            }
        }
        assert(nk[i] == f);
        lemma_sorted_unique(nk, i, nk.index_of(f));
        assert(n@ =~= o@.insert(f, n.deps_of(i).to_set()));
    }

    /// An empty table.
    pub fn new() -> (r: FeatureTable)
        ensures
            r.wf(),
            r@ == Map::<Seq<char>, Set<Seq<char>>>::empty(),
    {
        let r = FeatureTable { features: Vec::new(), deps: Vec::new() };
        assert(r@ =~= Map::<Seq<char>, Set<Seq<char>>>::empty());
        r
    }

    /// Adds `feature`, with no dependency, unless it is there.
    pub fn add_feature(&mut self, feature: &String)
        requires
            old(self).wf(),
        ensures
            final(self).wf(),
            final(self).keys().contains(feature@),
            final(self)@ == if old(self)@.contains_key(feature@) {
                old(self)@
            } else {
                old(self)@.insert(feature@, Set::empty())
            },
    {
        let ghost o = *self;
        let (i, added) = insert_sorted(&mut self.features, feature);
        assert(self.keys()[i as int] == feature@);
        if added {
            self.deps.insert(i, Vec::new());
            proof {
                o.deps@.insert_ensures(i as int, self.deps@[i as int]);
                assert forall|j: int| 0 <= j < self.deps@.len() implies strictly_sorted(#[trigger] self.deps_of(j)) by {
                    if j > i {
                        assert(self.deps_of(j) == o.deps_of(j - 1));
                    } else if j < i {
                        assert(self.deps_of(j) == o.deps_of(j));
                    }
                }
                assert(self.deps_of(i as int) =~= Seq::<Seq<char>>::empty());
                FeatureTable::lemma_view_update(o, *self, i as int, true);
                assert(self.deps_of(i as int).to_set() =~= Set::empty());
                assert(self.wf());
            }
        } else {
            assert(self.keys() == o.keys());
            assert forall|j: int| 0 <= j < self.deps@.len() implies strictly_sorted(#[trigger] self.deps_of(j)) by {
                assert(self.deps_of(j) == o.deps_of(j));
            }
            assert(self.wf());
        }
    }

    /// Records that `feature` depends on `dep`, adding the feature if it is not there.
    pub fn add_dependency(&mut self, feature: &String, dep: &String)
        requires
            old(self).wf(),
        ensures
            final(self).wf(),
            final(self)@ == old(self)@.insert(
                feature@,
                (if old(self)@.contains_key(feature@) {
                    old(self)@[feature@]
                } else {
                    Set::empty()
                }).insert(dep@),
            ),
    {
        let ghost o = *self;
        self.add_feature(feature);
        let ghost m = *self;
        let (i, _) = insert_sorted(&mut self.features, feature);
        assert(self.features@ == m.features@);
        assert(m.keys()[i as int] == feature@);
        proof {
            lemma_sorted_unique(m.keys(), i as int, m.keys().index_of(feature@));
        }
        assert(strictly_sorted(m.deps_of(i as int)));
        let mut ds = self.deps.remove(i);
        insert_sorted(&mut ds, dep);
        let ghost nd = ds;
        self.deps.insert(i, ds);
        proof {
            assert(self.deps@ =~= m.deps@.update(i as int, nd));
            assert forall|j: int| 0 <= j < self.deps@.len() implies strictly_sorted(#[trigger] self.deps_of(j)) by {
                if j != i {
                    assert(self.deps_of(j) == m.deps_of(j));
                }
            }
            FeatureTable::lemma_view_update(m, *self, i as int, false);
            assert(strings_view(nd@) == self.deps_of(i as int));
            assert(m@[feature@] == m.deps_of(i as int).to_set());
            assert(m@[feature@] == (if o@.contains_key(feature@) {
                o@[feature@]
            } else {
                Set::empty()
            }));
            assert(self@ =~= o@.insert(
                feature@,
                (if o@.contains_key(feature@) {
                    o@[feature@]
                } else {
                    Set::empty()
                }).insert(dep@),
            ));
        }
    }
}

impl FeatureTable {
    /// The dependencies of every feature, in the order of the features.
    spec fn all_deps(self) -> Seq<Seq<Seq<char>>> {
        Seq::new(self.features@.len(), |i: int| self.deps_of(i))
    }

    /// The block of a table is its lines in the order in which it keeps them.
    proof fn lemma_block(self)
        requires
            self.wf(),
        ensures
            manifest_block(self@) == entry_lines(self.keys(), self.all_deps()),
            sorted_elems(self@.dom()) == self.keys(),
            forall|i: int| 0 <= i < self.keys().len() ==> #[trigger] sorted_elems(self@[self.keys()[i]]) == self.deps_of(i),
    {
        let m = self@;
        let ks = self.keys();
        assert(m.dom() =~= ks.to_set());
        let fs = sorted_elems(m.dom());
        assert(strictly_sorted(ks) && ks.to_set() == m.dom());
        lemma_sorted_eq(fs, ks);
        assert forall|i: int| 0 <= i < ks.len() implies #[trigger] sorted_elems(m[ks[i]]) == self.deps_of(i) by {
            assert(ks.contains(ks[i]));
            lemma_sorted_unique(ks, i, ks.index_of(ks[i]));
            assert(m[ks[i]] == self.deps_of(i).to_set());
            assert(strictly_sorted(self.deps_of(i)));
            lemma_sorted_eq(sorted_elems(m[ks[i]]), self.deps_of(i));
        }
        assert(Seq::new(fs.len(), |i: int| sorted_elems(m[fs[i]])) =~= self.all_deps());
    }

    /// The manifest lines of the table: for each feature, in order, its name
    /// in quotes, ` = `, and its dependencies quoted within brackets.
    pub fn render_entries(&self) -> (r: String)
        requires
            self.wf(),
        ensures
            r@ == manifest_block(self@),
    {
        proof {
            self.lemma_block();
            reveal_strlit(", ");
        }
        let ghost ks = self.keys();
        let ghost dss = self.all_deps();
        let mut r = String::new();
        let mut i: usize = 0;
        assert(ks.take(0) =~= Seq::<Seq<char>>::empty());
        while i < self.features.len()
            invariant
                self.wf(),
                i <= self.features@.len(),
                ks == self.keys(),
                dss == self.all_deps(),
                r@ == entry_lines(ks.take(i as int), dss.take(i as int)),
            decreases self.features@.len() - i,
        {
            let ghost before = r@;
            let ds = &self.deps[i];
            let ghost dv = strings_view(ds@);
            r.append("\"");
            r.append(self.features[i].as_str());
            r.append("\" = [");
            let ghost head = r@;
            let mut j: usize = 0;
            assert(dv.take(0) =~= Seq::<Seq<char>>::empty());
            while j < ds.len()
                invariant
                    j <= ds@.len(),
                    dv == strings_view(ds@),
                    r@ == head + quoted_list(dv.take(j as int)),
                decreases ds@.len() - j,
            {
                let ghost mid = r@;
                if j > 0 {
                    r.append(", ");
                }
                r.append("\"");
                r.append(ds[j].as_str());
                r.append("\"");
                assert(dv.take(j + 1).drop_last() =~= dv.take(j as int));
                if j == 0 {
                    assert(r@ =~= head + quoted(dv[0]));
                } else {
                    assert(r@ =~= mid + ", "@ + quoted(dv[j as int]));
                }
                j = j + 1;
            }
            r.append("]\n");
            assert(dv.take(j as int) =~= dv);
            assert(dv == dss[i as int]);
            assert(ks.take(i + 1).drop_last() =~= ks.take(i as int));
            assert(dss.take(i + 1).drop_last() =~= dss.take(i as int));
            assert(r@ =~= before + entry_line(ks[i as int], dss[i as int]));
            i = i + 1;
        }
        assert(ks.take(i as int) =~= ks);
        assert(dss.take(i as int) =~= dss);
        r
    }
}

impl View for FeatureTable {
    type V = Map<Seq<char>, Set<Seq<char>>>;

    /// Each feature mapped to the set of its dependencies.
    closed spec fn view(&self) -> Map<Seq<char>, Set<Seq<char>>> {
        Map::new(
            |f: Seq<char>| self.keys().contains(f),
            |f: Seq<char>| self.deps_of(self.keys().index_of(f)).to_set(),
        )
    }
}

/// Why a manifest could not be filled.
#[derive(Debug, PartialEq, Eq, Structural)]
pub enum ManifestError {
    /// The template holds no placeholder.
    MissingPlaceholder,
}

/// The characters of `s`, one by one.
fn chars_of(s: &str) -> (r: Vec<char>)
    ensures
        r@ == s@,
{
    let n = s.unicode_len();
    let mut r: Vec<char> = Vec::new();
    let mut i: usize = 0;
    while i < n
        invariant
            n == s@.len(),
            i <= n,
            r@ == s@.take(i as int),
        decreases n - i,
    {
        r.push(s.get_char(i));
        i = i + 1;
        assert(r@ =~= s@.take(i as int));
    }
    assert(s@.take(i as int) =~= s@);
    r
}

/// The position of the first occurrence of `p` in `t`, if any.
fn find_first(t: &Vec<char>, p: &Vec<char>) -> (r: Option<usize>)
    requires
        p@.len() > 0,
    ensures
        match r {
            Some(i) => i + p@.len() <= t@.len() && t@.subrange(i as int, i + p@.len()) == p@
                && forall|j: int| 0 <= j < i ==> #[trigger] t@.subrange(j, j + p@.len()) != p@,
            None => forall|j: int| 0 <= j && j + p@.len() <= t@.len() ==> #[trigger] t@.subrange(j, j + p@.len()) != p@,
        },
{
    if p.len() > t.len() {
        return None;
    }
    let last = t.len() - p.len();
    let mut i: usize = 0;
    while i <= last
        invariant
            p@.len() > 0,
            i <= last + 1,
            last + p@.len() == t@.len(),
            t@.len() <= usize::MAX,
            forall|j: int| 0 <= j < i ==> #[trigger] t@.subrange(j, j + p@.len()) != p@,
        decreases last + 1 - i,
    {
        let mut k: usize = 0;
        while k < p.len() && t[i + k] == p[k]
            invariant
                i <= last,
                last + p@.len() == t@.len(),
                t@.len() <= usize::MAX,
                k <= p@.len(),
                forall|m: int| 0 <= m < k ==> t@[i + m] == p@[m],
            decreases p@.len() - k,
        {
            k = k + 1;
        }
        if k == p.len() {
            assert(t@.subrange(i as int, i + p@.len()) =~= p@);
            return Some(i);
        }
        assert(t@.subrange(i as int, i + p@.len())[k as int] != p@[k as int]);
        i = i + 1;
    }
    None
}

impl crate::librs::LibGenerator {
    /// Appends to `buf` the manifest `template` with its first placeholder
    /// replaced by the lines of `deps`; fails, appending nothing, where the
    /// template holds no placeholder.
    pub fn generate_manifest(template: &str, deps: &FeatureTable, buf: &mut String) -> (r: Result<
        (),
        ManifestError,
    >)
        requires
            deps.wf(),
        ensures
            r is Err <==> !has_placeholder(template@),
            r is Err ==> final(buf)@ == old(buf)@,
            r is Ok ==> final(buf)@ == old(buf)@ + fill(template@, manifest_block(deps@)),
    {
        let t = chars_of(template);
        let p = chars_of("{{ features }}");
        proof {
            reveal_strlit("{{ features }}");
        }
        match find_first(&t, &p) {
            None => {
                assert forall|j: int| !occurs_at(template@, j) by {
                    if 0 <= j && j + p@.len() <= t@.len() {
                        assert(t@.subrange(j, j + p@.len()) != p@);
                    }
                }
                Err(ManifestError::MissingPlaceholder)
            },
            Some(i) => {
                let ghost tv = template@;
                assert(occurs_at(tv, i as int));
                assert forall|j: int| 0 <= j < i implies !occurs_at(tv, j) by {
                    assert(t@.subrange(j, j + p@.len()) != p@);
                }
                let ghost fi = first_placeholder(tv);
                assert(fi == i) by {
                    if fi < i {
                        assert(!occurs_at(tv, fi));
                    } else if fi > i {
                        assert(!occurs_at(tv, i as int));
                    }
                }
                let block = deps.render_entries();
                let n = template.unicode_len();
                buf.append(template.substring_char(0, i));
                buf.append(block.as_str());
                buf.append(template.substring_char(i + p.len(), n));
                assert(tv.take(i as int) =~= tv.subrange(0, i as int));
                assert(tv.skip(i + p@.len()) =~= tv.subrange(i + p@.len(), n as int));
                Ok(())
            },
        }
    }
}

/// The number of line breaks in `s`.
pub open spec fn line_count(s: Seq<char>) -> nat
    decreases s.len(),
{
    if s.len() == 0 {
        0
    } else {
        (if s[0] == '\n' { 1nat } else { 0nat }) + line_count(s.drop_first())
    }
}

proof fn lemma_line_count_concat(a: Seq<char>, b: Seq<char>)
    ensures
        line_count(a + b) == line_count(a) + line_count(b),
    decreases a.len(),
{
    if a.len() == 0 {
        assert(a + b =~= b);
    } else {
        assert((a + b).drop_first() =~= a.drop_first() + b);
        lemma_line_count_concat(a.drop_first(), b);
    }
}

proof fn lemma_single_line_count(s: Seq<char>)
    requires
        single_line(s),
    ensures
        line_count(s) == 0,
    decreases s.len(),
{
    if s.len() > 0 {
        assert(s[0] != '\n');
        lemma_single_line_count(s.drop_first());
    }
}

proof fn lemma_quoted_list_count(ds: Seq<Seq<char>>)
    requires
        forall|i: int| 0 <= i < ds.len() ==> single_line(#[trigger] ds[i]),
    ensures
        line_count(quoted_list(ds)) == 0,
    decreases ds.len(),
{
    reveal_strlit("\"");
    reveal_strlit(", ");
    assert(single_line("\""@));
    assert(single_line(", "@));
    if ds.len() > 0 {
        let d = ds.last();
        assert(single_line(d));
        lemma_single_line_count("\""@);
        lemma_single_line_count(", "@);
        lemma_single_line_count(d);
        lemma_line_count_concat("\""@, d);
        lemma_line_count_concat("\""@ + d, "\""@);
        if ds.len() > 1 {
            assert(single_line(ds[0]));
            lemma_quoted_list_count(ds.drop_last());
            lemma_line_count_concat(quoted_list(ds.drop_last()), ", "@);
            lemma_line_count_concat(quoted_list(ds.drop_last()) + ", "@, quoted(d));
        } else {
            assert(ds[0] == d);
        }
    }
}

proof fn lemma_entry_lines_count(fs: Seq<Seq<char>>, dss: Seq<Seq<Seq<char>>>)
    requires
        fs.len() == dss.len(),
        forall|i: int| 0 <= i < fs.len() ==> single_line(#[trigger] fs[i]),
        forall|i: int, j: int| 0 <= i < dss.len() && 0 <= j < dss[i].len() ==> single_line(#[trigger] dss[i][j]),
    ensures
        line_count(entry_lines(fs, dss)) == fs.len(),
    decreases fs.len(),
{
    if fs.len() > 0 {
        let f = fs.last();
        let ds = dss.last();
        assert(single_line(f));
        assert forall|j: int| 0 <= j < ds.len() implies single_line(#[trigger] ds[j]) by {
            assert(dss[dss.len() - 1][j] == ds[j]);
        }
        assert forall|i: int, j: int| 0 <= i < dss.drop_last().len() && 0 <= j < dss.drop_last()[i].len() implies single_line(#[trigger] dss.drop_last()[i][j]) by {
            assert(dss.drop_last()[i] == dss[i]);
        }
        assert forall|i: int| 0 <= i < fs.drop_last().len() implies single_line(#[trigger] fs.drop_last()[i]) by {
            assert(fs.drop_last()[i] == fs[i]);
        }
        lemma_entry_lines_count(fs.drop_last(), dss.drop_last());
        lemma_quoted_list_count(ds);
        reveal_strlit("\"");
        reveal_strlit("\" = [");
        reveal_strlit("]\n");
        assert(single_line("\""@));
        assert(single_line("\" = ["@));
        lemma_single_line_count("\""@);
        lemma_single_line_count("\" = ["@);
        lemma_single_line_count(f);
        let end = "]\n"@;
        assert(end.drop_first() =~= seq!['\n']);
        assert(seq!['\n'].drop_first() =~= Seq::<char>::empty());
        assert(line_count(Seq::<char>::empty()) == 0);
        assert(seq!['\n'][0] == '\n');
        assert(line_count(seq!['\n']) == 1);
        assert(line_count(end) == 1);
        lemma_line_count_concat("\""@, f);
        lemma_line_count_concat("\""@ + f, "\" = ["@);
        lemma_line_count_concat("\""@ + f + "\" = ["@, quoted_list(ds));
        lemma_line_count_concat("\""@ + f + "\" = ["@ + quoted_list(ds), end);
        lemma_line_count_concat(entry_lines(fs.drop_last(), dss.drop_last()), entry_line(f, ds));
    }
}

/// The block of a table has one line per feature, the features in
/// lexicographic order, each once; the line of a feature lists each of its
/// dependencies once, in lexicographic order.
pub proof fn lemma_block_lines(t: FeatureTable)
    requires
        t.wf(),
        forall|f: Seq<char>| #[trigger] t@.contains_key(f) ==> single_line(f) && forall|d: Seq<char>|
            #[trigger] t@[f].contains(d) ==> single_line(d),
    ensures
        ({
            let fs = sorted_elems(t@.dom());
            let dss = Seq::new(fs.len(), |i: int| sorted_elems(t@[fs[i]]));
            &&& strictly_sorted(fs)
            &&& fs.to_set() == t@.dom()
            &&& fs.len() == t@.dom().len()
            &&& forall|i: int|
                0 <= i < fs.len() ==> strictly_sorted(#[trigger] dss[i]) && dss[i].to_set() == t@[fs[i]]
                    && dss[i].len() == t@[fs[i]].len()
            &&& manifest_block(t@) == entry_lines(fs, dss)
            &&& line_count(manifest_block(t@)) == fs.len()
        }),
{
    t.lemma_block();
    let m = t@;
    let ks = t.keys();
    assert(m.dom() =~= ks.to_set());
    let fs = sorted_elems(m.dom());
    assert(strictly_sorted(ks) && ks.to_set() == m.dom());
    lemma_sorted_eq(fs, ks);
    let dss = Seq::new(fs.len(), |i: int| sorted_elems(m[fs[i]]));
    assert(dss =~= t.all_deps());
    assert forall|i: int| 0 <= i < fs.len() implies strictly_sorted(#[trigger] dss[i]) && dss[i].to_set()
        == m[fs[i]] && dss[i].len() == m[fs[i]].len() by {
        assert(ks.contains(ks[i]));
        lemma_sorted_unique(ks, i, ks.index_of(ks[i]));
        assert(dss[i] == t.deps_of(i));
        assert(strictly_sorted(t.deps_of(i)));
        lemma_sorted_no_duplicates(t.deps_of(i));
        t.deps_of(i).unique_seq_to_set();
    }
    lemma_sorted_no_duplicates(ks);
    ks.unique_seq_to_set();
    assert forall|i: int| 0 <= i < fs.len() implies single_line(#[trigger] fs[i]) by {
        assert(ks.contains(ks[i]));
        assert(m.contains_key(fs[i]));
    }
    assert forall|i: int, j: int| 0 <= i < dss.len() && 0 <= j < dss[i].len() implies single_line(#[trigger] dss[i][j]) by {
        assert(ks.contains(ks[i]));
        assert(m.contains_key(fs[i]));
        lemma_sorted_unique(ks, i, ks.index_of(ks[i]));
        assert(dss[i] == t.deps_of(i));
        assert(dss[i].contains(dss[i][j]));
        assert(m[fs[i]].contains(dss[i][j]));
    }
    lemma_entry_lines_count(fs, dss);
}

/// A strictly sorted sequence repeats no element.
proof fn lemma_sorted_no_duplicates(s: Seq<Seq<char>>)
    requires
        strictly_sorted(s),
    ensures
        s.no_duplicates(),
{
    assert forall|i: int, j: int| 0 <= i < s.len() && 0 <= j < s.len() && i != j implies s[i] != s[j] by {
        if s[i] == s[j] {
            lemma_sorted_unique(s, i, j);
        }
    }
}

} // verus!
