//! Repository resolver: classifies requested package names against the
//! trusted system index and the untrusted remote index, and computes the
//! combined dependency closure in build order.
//!
//! Both indexes are plain lookup tables handed in by the embedder (the
//! system package database and the remote repository are external
//! capabilities; the embedder materialises the entries this resolver may
//! need).  A name present in both universes is classified as System: the
//! trusted repository takes precedence, so an untrusted source build can
//! never shadow a trusted binary.

use vstd::prelude::*;

verus! {

broadcast use vstd::seq_lib::seq_to_set_is_finite;

/// One package's metadata: its name and its declared dependencies.
pub struct PackageMeta {
    pub name: String,
    pub deps: Vec<String>,
}

/// A lookup table over package metadata.  Lookup finds the first entry
/// with a matching name.
pub struct PackageIndex {
    pub entries: Vec<PackageMeta>,
}

/// First-match lookup of `name` among `entries`, yielding the entry's
/// dependency names.
pub open spec fn index_lookup(entries: Seq<PackageMeta>, name: Seq<char>) -> Option<
    Seq<Seq<char>>,
>
    decreases entries.len(),
{
    if entries.len() == 0 {
        None
    } else if entries[0].name@ == name {
        Some(entries[0].deps.deep_view())
    } else {
        index_lookup(entries.drop_first(), name)
    }
}

/// Whether `name` is present in the index at all.
pub open spec fn index_has(entries: Seq<PackageMeta>, name: Seq<char>) -> bool {
    index_lookup(entries, name) is Some
}

/// Skipping entries whose names all differ from `name` does not change the
/// result of the lookup.
proof fn lemma_lookup_skip(entries: Seq<PackageMeta>, name: Seq<char>, i: int)
    requires
        0 <= i <= entries.len(),
        forall|k: int| 0 <= k < i ==> entries[k].name@ != name,
    ensures
        index_lookup(entries, name) == index_lookup(entries.skip(i), name),
    decreases i,
{
    if i > 0 {
        assert(entries[0].name@ != name);
        assert(forall|k: int| 0 <= k < i - 1 ==> entries.drop_first()[k].name@ != name);
        lemma_lookup_skip(entries.drop_first(), name, i - 1);
        assert(entries.skip(i) =~= entries.drop_first().skip(i - 1));
        assert(entries.skip(0) =~= entries);
    } else {
        assert(entries.skip(0) =~= entries);
    }
}

/// A present name has an entry at some position.
proof fn lemma_index_has_position(entries: Seq<PackageMeta>, name: Seq<char>)
    requires
        index_has(entries, name),
    ensures
        exists|i: int| 0 <= i < entries.len() && (#[trigger] entries[i]).name@ == name,
    decreases entries.len(),
{
    if entries.len() > 0 && entries[0].name@ != name {
        lemma_index_has_position(entries.drop_first(), name);
        let i = choose|i: int|
            0 <= i < entries.drop_first().len() && (#[trigger] entries.drop_first()[i]).name@
                == name;
        assert(entries[i + 1].name@ == name);
    }
}

impl PackageIndex {
    /// Whether the index holds an entry for `name`.
    pub fn contains_name(&self, name: &String) -> (b: bool)
        ensures
            b == index_has(self.entries@, name@),
    {
        let n = self.entries.len();
        let mut i: usize = 0;
        while i < n
            invariant
                n == self.entries@.len(),
                0 <= i <= n,
                forall|k: int| 0 <= k < i ==> (#[trigger] self.entries@[k]).name@ != name@,
            decreases n - i,
        {
            if self.entries[i].name == *name {
                proof {
                    lemma_lookup_skip(self.entries@, name@, i as int);
                    assert(self.entries@.skip(i as int)[0] == self.entries@[i as int]);
                }
                return true;
            }
            i += 1;
        }
        proof {
            lemma_lookup_skip(self.entries@, name@, n as int);
            assert(self.entries@.skip(n as int).len() == 0);
        }
        false
    }

    /// The declared dependencies of `name`, or `None` when the index has no
    /// entry for it.
    pub fn deps_of(&self, name: &String) -> (r: Option<Vec<String>>)
        ensures
            match r {
                Some(ds) => index_lookup(self.entries@, name@) == Some(ds.deep_view()),
                None => !index_has(self.entries@, name@),
            },
    {
        let n = self.entries.len();
        let mut i: usize = 0;
        while i < n
            invariant
                n == self.entries@.len(),
                0 <= i <= n,
                forall|k: int| 0 <= k < i ==> (#[trigger] self.entries@[k]).name@ != name@,
            decreases n - i,
        {
            if self.entries[i].name == *name {
                proof {
                    lemma_lookup_skip(self.entries@, name@, i as int);
                    assert(self.entries@.skip(i as int)[0] == self.entries@[i as int]);
                }
                return Some(clone_strings(&self.entries[i].deps));
            }
            i += 1;
        }
        proof {
            lemma_lookup_skip(self.entries@, name@, n as int);
            assert(self.entries@.skip(n as int).len() == 0);
        }
        None
    }
}

/// An element-for-element copy of a vector of strings.
fn clone_strings(v: &Vec<String>) -> (r: Vec<String>)
    ensures
        r.deep_view() == v.deep_view(),
{
    let n = v.len();
    let mut r: Vec<String> = Vec::new();
    let mut i: usize = 0;
    while i < n
        invariant
            n == v@.len(),
            0 <= i <= n,
            r@.len() == i,
            forall|k: int| 0 <= k < i ==> (#[trigger] r@[k])@ == v@[k]@,
        decreases n - i,
    {
        r.push(v[i].clone());
        i += 1;
    }
    proof {
        assert(r.deep_view() =~= v.deep_view());
    }
    r
}

/// Which universe a resolved package comes from.
#[derive(Clone, Copy, Debug, PartialEq, Eq, Structural)]
pub enum Origin {
    /// Present in the trusted system repository.
    System,
    /// Present only in the untrusted remote repository.
    Remote,
    /// Present in neither; such a reference never enters a closure.
    Unresolved,
}

/// A package name together with its classification.
pub struct PackageRef {
    pub name: String,
    pub origin: Origin,
}

/// Why closure construction failed.  No partial closure is ever returned.
#[derive(Debug)]
pub enum ResolveError {
    /// The named package is absent from both universes.
    Unresolvable(String),
    /// The named remote packages depend on one another in a cycle: each
    /// one's dependencies include the next, and the last one's include the
    /// first.
    Cycle(Vec<String>),
}

/// The combined dependency closure: every requested package and every
/// dependency of a remote package, in an order fit for building and
/// installing (a remote package never precedes a remote package it depends
/// on).
pub struct DependencyClosure {
    pub refs: Vec<PackageRef>,
}

/// Present only in the remote universe: this is what gets classified
/// `Remote` and must be built from source.
pub open spec fn remote_only(sys: Seq<PackageMeta>, rem: Seq<PackageMeta>, n: Seq<char>) -> bool {
    !index_has(sys, n) && index_has(rem, n)
}

/// `n` is among the declared dependencies of remote package `p`.
pub open spec fn dep_of(rem: Seq<PackageMeta>, p: Seq<char>, n: Seq<char>) -> bool {
    index_lookup(rem, p) matches Some(ds) && ds.contains(n)
}

/// A dependency chain from a requested name down to its last element:
/// the chain starts at a root, and every element before the last is a
/// remote-only package whose declared dependencies include the next.
pub open spec fn demand_chain(
    sys: Seq<PackageMeta>,
    rem: Seq<PackageMeta>,
    roots: Seq<Seq<char>>,
    path: Seq<Seq<char>>,
) -> bool {
    &&& path.len() > 0
    &&& roots.contains(path[0])
    &&& forall|i: int|
        0 <= i < path.len() - 1 ==> remote_only(sys, rem, #[trigger] path[i]) && dep_of(
            rem,
            path[i],
            path[i + 1],
        )
}

/// `n` is demanded: some dependency chain from a requested name reaches
/// it.  A successful resolution's closure contains exactly the demanded
/// names.
pub open spec fn demanded_any(
    sys: Seq<PackageMeta>,
    rem: Seq<PackageMeta>,
    roots: Seq<Seq<char>>,
    n: Seq<char>,
) -> bool {
    exists|path: Seq<Seq<char>>|
        #[trigger] demand_chain(sys, rem, roots, path) && path.last() == n
}

/// Every requested name is demanded.
pub proof fn lemma_demanded_root(
    sys: Seq<PackageMeta>,
    rem: Seq<PackageMeta>,
    roots: Seq<Seq<char>>,
    n: Seq<char>,
)
    requires
        roots.contains(n),
    ensures
        demanded_any(sys, rem, roots, n),
{
    let path: Seq<Seq<char>> = seq![n];
    assert(demand_chain(sys, rem, roots, path) && path.last() == n);
}

/// A declared dependency of a demanded remote-only package is demanded.
pub proof fn lemma_demanded_step(
    sys: Seq<PackageMeta>,
    rem: Seq<PackageMeta>,
    roots: Seq<Seq<char>>,
    p: Seq<char>,
    n: Seq<char>,
)
    requires
        demanded_any(sys, rem, roots, p),
        remote_only(sys, rem, p),
        dep_of(rem, p, n),
    ensures
        demanded_any(sys, rem, roots, n),
{
    let path = choose|path: Seq<Seq<char>>|
        #[trigger] demand_chain(sys, rem, roots, path) && path.last() == p;
    let path2 = path.push(n);
    assert(path2[0] == path[0]);
    assert forall|i: int| 0 <= i < path2.len() - 1 implies remote_only(sys, rem, #[trigger] path2[i])
        && dep_of(rem, path2[i], path2[i + 1]) by {
        if i < path.len() - 1 {
            assert(path2[i] == path[i]);
            assert(path2[i + 1] == path[i + 1]);
        } else {
            assert(path2[i] == path.last());
            assert(path2[i + 1] == n);
        }
    }
    assert(demand_chain(sys, rem, roots, path2) && path2.last() == n);
}

/// A genuine dependency cycle among remote-only packages: each element
/// depends on the next, and the last depends on the first.
pub open spec fn is_remote_cycle(
    sys: Seq<PackageMeta>,
    rem: Seq<PackageMeta>,
    path: Seq<Seq<char>>,
) -> bool {
    &&& path.len() > 0
    &&& forall|i: int| 0 <= i < path.len() ==> remote_only(sys, rem, #[trigger] path[i])
    &&& forall|i: int|
        0 <= i < path.len() ==> dep_of(
            rem,
            #[trigger] path[i],
            path[if i + 1 < path.len() { i + 1 } else { 0 }],
        )
}

/// Some entry of `refs` carries the name `n`.
pub open spec fn name_in(refs: Seq<PackageRef>, n: Seq<char>) -> bool {
    exists|j: int| 0 <= j < refs.len() && (#[trigger] refs[j]).name@ == n
}

/// Some entry of `refs` before position `upto` carries the name `n`.
pub open spec fn name_before(refs: Seq<PackageRef>, upto: int, n: Seq<char>) -> bool {
    exists|j: int| 0 <= j < upto && j < refs.len() && (#[trigger] refs[j]).name@ == n
}

/// The classification rule: System when the system index has the name
/// (whether or not the remote index does — the trusted repository takes
/// precedence), Remote when only the remote index has it, and never
/// Unresolved.
pub open spec fn ref_classified(sys: Seq<PackageMeta>, rem: Seq<PackageMeta>, r: PackageRef) -> bool {
    &&& r.origin is System <==> index_has(sys, r.name@)
    &&& r.origin is Remote <==> remote_only(sys, rem, r.name@)
    &&& !(r.origin is Unresolved)
}

/// The dependencies of the remote entry at position `i` are all accounted
/// for: each is resolvable, system dependencies appear somewhere in the
/// closure, and remote dependencies appear strictly earlier (build order).
pub open spec fn deps_in_closure(
    sys: Seq<PackageMeta>,
    rem: Seq<PackageMeta>,
    refs: Seq<PackageRef>,
    i: int,
) -> bool {
    index_lookup(rem, refs[i].name@) matches Some(ds) ==> forall|k: int|
        0 <= k < ds.len() ==> ({
            &&& index_has(sys, #[trigger] ds[k]) || remote_only(sys, rem, ds[k])
            &&& index_has(sys, ds[k]) ==> name_in(refs, ds[k])
            &&& remote_only(sys, rem, ds[k]) ==> name_before(refs, i, ds[k])
        })
}

/// Well-formedness of a (possibly partial) closure: every entry is
/// correctly classified and actually demanded, names never repeat, and
/// every remote entry's dependencies are accounted for in build order.
pub open spec fn closure_wf(
    sys: Seq<PackageMeta>,
    rem: Seq<PackageMeta>,
    roots: Seq<Seq<char>>,
    refs: Seq<PackageRef>,
) -> bool {
    &&& forall|i: int| 0 <= i < refs.len() ==> ref_classified(sys, rem, #[trigger] refs[i])
    &&& forall|i: int|
        0 <= i < refs.len() ==> demanded_any(sys, rem, roots, (#[trigger] refs[i]).name@)
    &&& forall|i: int, j: int|
        0 <= i < j < refs.len() ==> (#[trigger] refs[i]).name@ != (#[trigger] refs[j]).name@
    &&& forall|i: int|
        0 <= i < refs.len() && (#[trigger] refs[i]).origin is Remote ==> deps_in_closure(
            sys,
            rem,
            refs,
            i,
        )
}

/// What a successful resolution guarantees: a well-formed closure that
/// covers every requested name.
pub open spec fn resolved_closure(
    sys: Seq<PackageMeta>,
    rem: Seq<PackageMeta>,
    roots: Seq<Seq<char>>,
    refs: Seq<PackageRef>,
) -> bool {
    &&& closure_wf(sys, rem, roots, refs)
    &&& forall|k: int| 0 <= k < roots.len() ==> name_in(refs, #[trigger] roots[k])
}

/// The names of an index's entries, in entry order.
pub open spec fn entry_names(entries: Seq<PackageMeta>) -> Seq<Seq<char>> {
    Seq::new(entries.len(), |i: int| entries[i].name@)
}

/// A duplicate-free sequence of names all present in an index cannot be
/// longer than the index — the bound behind the resolver's termination.
proof fn lemma_distinct_known_names_bounded(entries: Seq<PackageMeta>, names: Seq<Seq<char>>)
    requires
        names.no_duplicates(),
        forall|i: int| 0 <= i < names.len() ==> index_has(entries, #[trigger] names[i]),
    ensures
        names.len() <= entries.len(),
{
    names.unique_seq_to_set();
    let ns = entry_names(entries);
    ns.lemma_cardinality_of_set();
    assert forall|n: Seq<char>| names.to_set().contains(n) implies ns.to_set().contains(n) by {
        let i = choose|i: int| 0 <= i < names.len() && names[i] == n;
        assert(index_has(entries, names[i]));
        lemma_index_has_position(entries, n);
        let j = choose|j: int| 0 <= j < entries.len() && (#[trigger] entries[j]).name@ == n;
        assert(ns[j] == n);
    }
    vstd::set_lib::lemma_len_subset(names.to_set(), ns.to_set());
}

/// A prefix of a longer closure keeps every name it had.
proof fn lemma_name_in_extend(a: Seq<PackageRef>, b: Seq<PackageRef>, n: Seq<char>)
    requires
        a.is_prefix_of(b),
        name_in(a, n),
    ensures
        name_in(b, n),
{
    let j = choose|j: int| 0 <= j < a.len() && (#[trigger] a[j]).name@ == n;
    assert(b[j] == a[j]);
}

/// Prefix order on closures is transitive.
proof fn lemma_prefix_trans(a: Seq<PackageRef>, b: Seq<PackageRef>, c: Seq<PackageRef>)
    requires
        a.is_prefix_of(b),
        b.is_prefix_of(c),
    ensures
        a.is_prefix_of(c),
{
    assert forall|i: int| 0 <= i < a.len() implies a[i] == c.subrange(0, a.len() as int)[i] by {
        assert(a[i] == b[i]);
        assert(b[i] == c[i]);
    }
    assert(a =~= c.subrange(0, a.len() as int));
}

/// Appending a correctly classified, demanded, fresh entry whose
/// dependencies are already accounted for preserves closure
/// well-formedness.
proof fn lemma_wf_push(
    sys: Seq<PackageMeta>,
    rem: Seq<PackageMeta>,
    roots: Seq<Seq<char>>,
    refs: Seq<PackageRef>,
    r: PackageRef,
)
    requires
        closure_wf(sys, rem, roots, refs),
        ref_classified(sys, rem, r),
        demanded_any(sys, rem, roots, r.name@),
        !name_in(refs, r.name@),
        r.origin is Remote ==> (index_lookup(rem, r.name@) matches Some(ds) && forall|k: int|
            0 <= k < ds.len() ==> ((index_has(sys, #[trigger] ds[k]) || remote_only(
                sys,
                rem,
                ds[k],
            )) && name_in(refs, ds[k]))),
    ensures
        closure_wf(sys, rem, roots, refs.push(r)),
{
    let refs2 = refs.push(r);
    assert forall|i: int| 0 <= i < refs2.len() implies ref_classified(sys, rem, #[trigger] refs2[i])
        && demanded_any(sys, rem, roots, refs2[i].name@) by {
        if i < refs.len() {
            assert(refs2[i] == refs[i]);
        } else {
            assert(refs2[i] == r);
        }
    }
    assert forall|i: int, j: int| 0 <= i < j < refs2.len() implies (#[trigger] refs2[i]).name@ != (
    #[trigger] refs2[j]).name@ by {
        if j < refs.len() {
            assert(refs2[i] == refs[i] && refs2[j] == refs[j]);
        } else {
            assert(refs2[i] == refs[i] && refs2[j] == r);
            if refs[i].name@ == r.name@ {
                assert(name_in(refs, r.name@));
            }
        }
    }
    assert forall|i: int|
        0 <= i < refs2.len() && (#[trigger] refs2[i]).origin is Remote implies deps_in_closure(
        sys,
        rem,
        refs2,
        i,
    ) by {
        if i < refs.len() {
            assert(refs2[i] == refs[i]);
            assert(deps_in_closure(sys, rem, refs, i));
            match index_lookup(rem, refs2[i].name@) {
                Some(ds) => {
                    assert forall|k: int| 0 <= k < ds.len() implies ({
                        &&& index_has(sys, #[trigger] ds[k]) || remote_only(sys, rem, ds[k])
                        &&& index_has(sys, ds[k]) ==> name_in(refs2, ds[k])
                        &&& remote_only(sys, rem, ds[k]) ==> name_before(refs2, i, ds[k])
                    }) by {
                        assert(index_has(sys, ds[k]) || remote_only(sys, rem, ds[k]));
                        if index_has(sys, ds[k]) && name_in(refs, ds[k]) {
                            let j = choose|j: int|
                                0 <= j < refs.len() && (#[trigger] refs[j]).name@ == ds[k];
                            assert(refs2[j] == refs[j]);
                        }
                        if remote_only(sys, rem, ds[k]) && name_before(refs, i, ds[k]) {
                            let j = choose|j: int|
                                0 <= j < i && j < refs.len() && (#[trigger] refs[j]).name@ == ds[k];
                            assert(refs2[j] == refs[j]);
                        }
                    }
                },
                None => {},
            }
        } else {
            assert(refs2[i] == r);
            match index_lookup(rem, r.name@) {
                Some(ds) => {
                    assert forall|k: int| 0 <= k < ds.len() implies ({
                        &&& index_has(sys, #[trigger] ds[k]) || remote_only(sys, rem, ds[k])
                        &&& index_has(sys, ds[k]) ==> name_in(refs2, ds[k])
                        &&& remote_only(sys, rem, ds[k]) ==> name_before(refs2, i, ds[k])
                    }) by {
                        assert(name_in(refs, ds[k]));
                        let j = choose|j: int|
                            0 <= j < refs.len() && (#[trigger] refs[j]).name@ == ds[k];
                        assert(refs2[j] == refs[j]);
                        assert(0 <= j < i && refs2[j].name@ == ds[k]);
                    }
                },
                None => {},
            }
        }
    }
}

/// What a resolution error guarantees: the reported name really is
/// demanded and absent from both universes, or the reported path really is
/// a dependency cycle of demanded remote packages.
pub open spec fn resolve_error_witness(
    sys: Seq<PackageMeta>,
    rem: Seq<PackageMeta>,
    roots: Seq<Seq<char>>,
    e: ResolveError,
) -> bool {
    match e {
        ResolveError::Unresolvable(n) => !index_has(sys, n@) && !index_has(rem, n@)
            && demanded_any(sys, rem, roots, n@),
        ResolveError::Cycle(p) => is_remote_cycle(sys, rem, p.deep_view()) && forall|i: int|
            0 <= i < p.deep_view().len() ==> demanded_any(sys, rem, roots, #[trigger] p.deep_view()[i]),
    }
}

/// Well-formedness of the depth-first traversal stack: the packages
/// currently being expanded, each remote-only, demanded, never repeated,
/// and each a declared dependency of the one below it.
pub open spec fn stack_wf(
    sys: Seq<PackageMeta>,
    rem: Seq<PackageMeta>,
    roots: Seq<Seq<char>>,
    stack: Seq<Seq<char>>,
) -> bool {
    &&& forall|i: int| 0 <= i < stack.len() ==> remote_only(sys, rem, #[trigger] stack[i])
    &&& forall|i: int| 0 <= i < stack.len() ==> demanded_any(sys, rem, roots, #[trigger] stack[i])
    &&& stack.no_duplicates()
    &&& forall|i: int|
        0 <= i < stack.len() - 1 ==> dep_of(rem, #[trigger] stack[i], stack[i + 1])
}

/// Nothing on the traversal stack has been finished into the closure yet.
pub open spec fn stack_done_disjoint(stack: Seq<Seq<char>>, refs: Seq<PackageRef>) -> bool {
    forall|i: int| 0 <= i < stack.len() ==> !name_in(refs, #[trigger] stack[i])
}

/// Whether the closure built so far carries an entry named `name`.
fn contains_pkg_name(refs: &Vec<PackageRef>, name: &String) -> (b: bool)
    ensures
        b == name_in(refs@, name@),
{
    let n = refs.len();
    let mut i: usize = 0;
    while i < n
        invariant
            n == refs@.len(),
            0 <= i <= n,
            forall|k: int| 0 <= k < i ==> (#[trigger] refs@[k]).name@ != name@,
        decreases n - i,
    {
        if refs[i].name == *name {
            return true;
        }
        i += 1;
    }
    false
}

/// The position of `name` on the traversal stack, if it is there.
fn position_in(v: &Vec<String>, name: &String) -> (r: Option<usize>)
    ensures
        match r {
            Some(j) => j < v@.len() && v.deep_view()[j as int] == name@,
            None => !v.deep_view().contains(name@),
        },
{
    let n = v.len();
    let mut i: usize = 0;
    while i < n
        invariant
            n == v@.len(),
            0 <= i <= n,
            forall|k: int| 0 <= k < i ==> v.deep_view()[k] != name@,
        decreases n - i,
    {
        if v[i] == *name {
            return Some(i);
        }
        i += 1;
    }
    proof {
        assert forall|k: int| 0 <= k < v.deep_view().len() implies v.deep_view()[k] != name@ by {}
    }
    None
}

/// A copy of the stack from position `j` on: the cycle that was found.
fn tail_from(v: &Vec<String>, j: usize) -> (r: Vec<String>)
    requires
        j < v@.len(),
    ensures
        r.deep_view() == v.deep_view().skip(j as int),
{
    let n = v.len();
    let mut r: Vec<String> = Vec::new();
    let mut i: usize = j;
    while i < n
        invariant
            n == v@.len(),
            j <= i <= n,
            r@.len() == i - j,
            forall|k: int| 0 <= k < i - j ==> (#[trigger] r@[k])@ == v@[j + k]@,
        decreases n - i,
    {
        r.push(v[i].clone());
        i += 1;
    }
    proof {
        assert(r.deep_view() =~= v.deep_view().skip(j as int));
    }
    r
}

/// One step of the depth-first expansion: brings `name` — a demanded
/// remote-only package not yet finished or in progress — and everything it
/// transitively depends on into the closure, dependencies first.
#[verifier::loop_isolation(false)]
fn visit(
    sys: &PackageIndex,
    rem: &PackageIndex,
    Ghost(roots): Ghost<Seq<Seq<char>>>,
    name: &String,
    stack: &mut Vec<String>,
    done: &mut Vec<PackageRef>,
) -> (r: Result<(), ResolveError>)
    requires
        stack_wf(sys.entries@, rem.entries@, roots, old(stack).deep_view()),
        closure_wf(sys.entries@, rem.entries@, roots, old(done)@),
        stack_done_disjoint(old(stack).deep_view(), old(done)@),
        remote_only(sys.entries@, rem.entries@, name@),
        demanded_any(sys.entries@, rem.entries@, roots, name@),
        !old(stack).deep_view().contains(name@),
        !name_in(old(done)@, name@),
        old(stack).deep_view().len() > 0 ==> dep_of(
            rem.entries@,
            old(stack).deep_view().last(),
            name@,
        ),
    ensures
        match r {
            Ok(_) => {
                &&& final(stack).deep_view() == old(stack).deep_view()
                &&& closure_wf(sys.entries@, rem.entries@, roots, final(done)@)
                &&& stack_done_disjoint(old(stack).deep_view(), final(done)@)
                &&& old(done)@.is_prefix_of(final(done)@)
                &&& name_in(final(done)@, name@)
            },
            Err(e) => resolve_error_witness(sys.entries@, rem.entries@, roots, e),
        },
    decreases rem.entries@.len() - old(stack).deep_view().len(),
{
    let ghost syss = sys.entries@;
    let ghost rems = rem.entries@;
    let ghost stack_old = stack.deep_view();
    stack.push(name.clone());
    let ghost stack1 = stack.deep_view();
    proof {
        assert(stack1 =~= stack_old.push(name@));
        assert forall|t: int| 0 <= t < stack1.len() implies remote_only(
            syss,
            rems,
            #[trigger] stack1[t],
        ) && demanded_any(syss, rems, roots, stack1[t]) by {
            if t < stack_old.len() {
                assert(stack1[t] == stack_old[t]);
            } else {
                assert(stack1[t] == name@);
            }
        }
        assert forall|t: int, u: int|
            0 <= t < stack1.len() && 0 <= u < stack1.len() && t != u implies stack1[t]
            != stack1[u] by {
            if t < stack_old.len() && u < stack_old.len() {
                assert(stack1[t] == stack_old[t] && stack1[u] == stack_old[u]);
            } else if t < stack_old.len() {
                assert(stack1[u] == name@ && stack1[t] == stack_old[t]);
                if stack_old[t] == name@ {
                    assert(stack_old.contains(name@));
                }
            } else {
                assert(stack1[t] == name@ && stack1[u] == stack_old[u]);
                if stack_old[u] == name@ {
                    assert(stack_old.contains(name@));
                }
            }
        }
        assert forall|t: int| 0 <= t < stack1.len() - 1 implies dep_of(
            rems,
            #[trigger] stack1[t],
            stack1[t + 1],
        ) by {
            if t < stack_old.len() - 1 {
                assert(stack1[t] == stack_old[t] && stack1[t + 1] == stack_old[t + 1]);
            } else {
                assert(stack1[t] == stack_old.last() && stack1[t + 1] == name@);
            }
        }
        assert(stack_wf(syss, rems, roots, stack1));
        assert forall|t: int| 0 <= t < stack1.len() implies !name_in(done@, #[trigger] stack1[t]) by {
            if t < stack_old.len() {
                assert(stack1[t] == stack_old[t]);
            } else {
                assert(stack1[t] == name@);
            }
        }
    }
    let deps = match rem.deps_of(name) {
        Some(d) => d,
        None => vstd::pervasive::unreached(),
    };
    let ghost depsv = deps.deep_view();
    proof {
        assert(index_lookup(rems, name@) == Some(depsv));
    }
    let nd = deps.len();
    let mut i: usize = 0;
    while i < nd
        invariant
            0 <= i <= nd,
            nd == depsv.len(),
            stack.deep_view() == stack1,
            closure_wf(syss, rems, roots, done@),
            stack_done_disjoint(stack1, done@),
            old(done)@.is_prefix_of(done@),
            forall|k: int|
                0 <= k < i ==> ((index_has(syss, #[trigger] depsv[k]) || remote_only(
                    syss,
                    rems,
                    depsv[k],
                )) && name_in(done@, depsv[k])),
        decreases nd - i,
    {
        let dep = &deps[i];
        proof {
            assert(depsv[i as int] == dep@);
            assert(depsv.contains(dep@));
            lemma_demanded_step(syss, rems, roots, name@, dep@);
        }
        if sys.contains_name(dep) {
            if !contains_pkg_name(done, dep) {
                let ghost done_before = done@;
                let r0 = PackageRef { name: dep.clone(), origin: Origin::System };
                proof {
                    lemma_wf_push(syss, rems, roots, done@, r0);
                }
                done.push(r0);
                proof {
                    assert(done_before.is_prefix_of(done@)) by {
                        assert(done_before =~= done@.subrange(0, done_before.len() as int));
                    }
                    lemma_prefix_trans(old(done)@, done_before, done@);
                    assert forall|t: int| 0 <= t < stack1.len() implies !name_in(
                        done@,
                        #[trigger] stack1[t],
                    ) by {
                        if name_in(done@, stack1[t]) {
                            let j = choose|j: int|
                                0 <= j < done@.len() && (#[trigger] done@[j]).name@ == stack1[t];
                            if j < done_before.len() {
                                assert(done@[j] == done_before[j]);
                                assert(name_in(done_before, stack1[t]));
                            } else {
                                assert(done@[j] == r0);
                            }
                        }
                    }
                    assert forall|k: int|
                        0 <= k < i + 1 implies ((index_has(syss, #[trigger] depsv[k])
                        || remote_only(syss, rems, depsv[k])) && name_in(done@, depsv[k])) by {
                        if k < i {
                            lemma_name_in_extend(done_before, done@, depsv[k]);
                        } else {
                            assert(done@[done@.len() - 1] == r0);
                        }
                    }
                }
            }
        } else if rem.contains_name(dep) {
            match position_in(stack, dep) {
                Some(j) => {
                    let path = tail_from(stack, j);
                    proof {
                        let pv = path.deep_view();
                        assert(pv == stack1.skip(j as int));
                        assert(pv.len() == stack1.len() - j);
                        assert forall|t: int| 0 <= t < pv.len() implies remote_only(
                            syss,
                            rems,
                            #[trigger] pv[t],
                        ) && demanded_any(syss, rems, roots, pv[t]) by {
                            assert(pv[t] == stack1[j + t]);
                        }
                        assert forall|t: int| 0 <= t < pv.len() implies dep_of(
                            rems,
                            #[trigger] pv[t],
                            pv[if t + 1 < pv.len() { t + 1 } else { 0 }],
                        ) by {
                            if t + 1 < pv.len() {
                                assert(pv[t] == stack1[j + t]);
                                assert(pv[t + 1] == stack1[j + t + 1]);
                            } else {
                                assert(pv[t] == stack1[stack1.len() - 1]);
                                assert(stack1[stack1.len() - 1] == name@);
                                assert(pv[0] == stack1[j as int]);
                                assert(stack1[j as int] == dep@);
                            }
                        }
                        assert(is_remote_cycle(syss, rems, pv));
                    }
                    return Err(ResolveError::Cycle(path));
                },
                None => {
                    if !contains_pkg_name(done, dep) {
                        let ghost done_before = done@;
                        proof {
                            lemma_distinct_known_names_bounded(rems, stack1);
                        }
                        match visit(sys, rem, Ghost(roots), dep, stack, done) {
                            Ok(_) => {
                                proof {
                                    lemma_prefix_trans(old(done)@, done_before, done@);
                                    assert forall|k: int|
                                        0 <= k < i + 1 implies ((index_has(
                                        syss,
                                        #[trigger] depsv[k],
                                    ) || remote_only(syss, rems, depsv[k])) && name_in(
                                        done@,
                                        depsv[k],
                                    )) by {
                                        if k < i {
                                            lemma_name_in_extend(done_before, done@, depsv[k]);
                                        }
                                    }
                                }
                            },
                            Err(e) => {
                                return Err(e);
                            },
                        }
                    }
                },
            }
        } else {
            return Err(ResolveError::Unresolvable(dep.clone()));
        }
        i += 1;
    }
    proof {
        assert forall|t: int| 0 <= t < stack@.len() implies (#[trigger] stack@[t])@
            == stack1[t] by {
            assert(stack.deep_view()[t] == stack1[t]);
        }
        assert(stack@.len() == stack1.len());
    }
    let _ = stack.pop();
    proof {
        assert(stack1.len() == stack_old.len() + 1);
        assert forall|t: int| 0 <= t < stack@.len() implies (#[trigger] stack@[t])@
            == stack_old[t] by {
            assert(stack1[t] == stack_old[t]);
        }
        assert(stack.deep_view() =~= stack_old);
    }
    let r1 = PackageRef { name: name.clone(), origin: Origin::Remote };
    let ghost done_before = done@;
    proof {
        assert(stack1[stack1.len() - 1] == name@);
        assert(!name_in(done@, name@));
        lemma_wf_push(syss, rems, roots, done@, r1);
    }
    done.push(r1);
    proof {
        assert(done_before.is_prefix_of(done@)) by {
            assert(done_before =~= done@.subrange(0, done_before.len() as int));
        }
        lemma_prefix_trans(old(done)@, done_before, done@);
        assert(done@[done@.len() - 1] == r1);
        assert(name_in(done@, name@));
        assert forall|t: int| 0 <= t < stack_old.len() implies !name_in(
            done@,
            #[trigger] stack_old[t],
        ) by {
            assert(stack_old[t] == stack1[t]);
            if name_in(done@, stack_old[t]) {
                let j = choose|j: int|
                    0 <= j < done@.len() && (#[trigger] done@[j]).name@ == stack_old[t];
                if j < done_before.len() {
                    assert(done@[j] == done_before[j]);
                    assert(name_in(done_before, stack1[t]));
                } else {
                    assert(done@[j] == r1);
                    assert(stack_old.contains(name@));
                }
            }
        }
    }
    Ok(())
}

/// Resolves the requested names against the system and remote indexes and
/// builds the combined dependency closure in build order.  Succeeds with a
/// well-formed closure covering every request exactly when every demanded
/// name is resolvable and the demanded remote packages are cycle-free; a
/// failure carries a genuine witness (an absent demanded name, or an
/// actual remote dependency cycle) and returns no partial closure.
#[verifier::loop_isolation(false)]
pub fn resolve(
    names: &Vec<String>,
    system_index: &PackageIndex,
    remote_index: &PackageIndex,
) -> (r: Result<DependencyClosure, ResolveError>)
    ensures
        match r {
            Ok(c) => resolved_closure(
                system_index.entries@,
                remote_index.entries@,
                names.deep_view(),
                c.refs@,
            ),
            Err(e) => resolve_error_witness(
                system_index.entries@,
                remote_index.entries@,
                names.deep_view(),
                e,
            ),
        },
{
    let ghost syss = system_index.entries@;
    let ghost rems = remote_index.entries@;
    let ghost roots = names.deep_view();
    let mut stack: Vec<String> = Vec::new();
    let mut done: Vec<PackageRef> = Vec::new();
    let nn = names.len();
    let mut k: usize = 0;
    while k < nn
        invariant
            0 <= k <= nn,
            stack.deep_view().len() == 0,
            closure_wf(syss, rems, roots, done@),
            forall|t: int| 0 <= t < k ==> name_in(done@, #[trigger] roots[t]),
        decreases nn - k,
    {
        let root = &names[k];
        proof {
            assert(roots[k as int] == root@);
            assert(roots.contains(root@));
            lemma_demanded_root(syss, rems, roots, root@);
        }
        if system_index.contains_name(root) {
            if !contains_pkg_name(&done, root) {
                let ghost done_before = done@;
                let r0 = PackageRef { name: root.clone(), origin: Origin::System };
                proof {
                    lemma_wf_push(syss, rems, roots, done@, r0);
                }
                done.push(r0);
                proof {
                    assert forall|t: int| 0 <= t < k + 1 implies name_in(
                        done@,
                        #[trigger] roots[t],
                    ) by {
                        if t < k {
                            assert(done_before.is_prefix_of(done@)) by {
                                assert(done_before =~= done@.subrange(
                                    0,
                                    done_before.len() as int,
                                ));
                            }
                            lemma_name_in_extend(done_before, done@, roots[t]);
                        } else {
                            assert(done@[done@.len() - 1] == r0);
                        }
                    }
                }
            }
        } else if remote_index.contains_name(root) {
            if !contains_pkg_name(&done, root) {
                let ghost done_before = done@;
                proof {
                    assert(stack_done_disjoint(stack.deep_view(), done@));
                    assert(!stack.deep_view().contains(root@));
                }
                match visit(system_index, remote_index, Ghost(roots), root, &mut stack, &mut done) {
                    Ok(_) => {
                        proof {
                            assert forall|t: int| 0 <= t < k + 1 implies name_in(
                                done@,
                                #[trigger] roots[t],
                            ) by {
                                if t < k {
                                    lemma_name_in_extend(done_before, done@, roots[t]);
                                }
                            }
                        }
                    },
                    Err(e) => {
                        return Err(e);
                    },
                }
            }
        } else {
            return Err(ResolveError::Unresolvable(root.clone()));
        }
        k += 1;
    }
    Ok(DependencyClosure { refs: done })
}

/// On success the closure is also complete: every demanded name — every
/// package reachable through declared dependencies from a requested one —
/// appears in it.  Together with well-formedness this pins the closure's
/// membership exactly: a name is in the closure if and only if it is
/// demanded.
pub proof fn lemma_closure_covers_demanded(
    sys: Seq<PackageMeta>,
    rem: Seq<PackageMeta>,
    roots: Seq<Seq<char>>,
    refs: Seq<PackageRef>,
    n: Seq<char>,
)
    requires
        resolved_closure(sys, rem, roots, refs),
        demanded_any(sys, rem, roots, n),
    ensures
        name_in(refs, n),
{
    let path = choose|path: Seq<Seq<char>>|
        #[trigger] demand_chain(sys, rem, roots, path) && path.last() == n;
    lemma_chain_in_closure(sys, rem, roots, refs, path);
}

/// Helper induction for [`lemma_closure_covers_demanded`]: the end of any
/// dependency chain from a requested name lies in the closure.
proof fn lemma_chain_in_closure(
    sys: Seq<PackageMeta>,
    rem: Seq<PackageMeta>,
    roots: Seq<Seq<char>>,
    refs: Seq<PackageRef>,
    path: Seq<Seq<char>>,
)
    requires
        resolved_closure(sys, rem, roots, refs),
        demand_chain(sys, rem, roots, path),
    ensures
        name_in(refs, path.last()),
    decreases path.len(),
{
    if path.len() == 1 {
        let t = choose|t: int| 0 <= t < roots.len() && roots[t] == path[0];
        assert(name_in(refs, roots[t]));
    } else {
        let pre = path.drop_last();
        assert(pre[0] == path[0]);
        assert forall|t: int| 0 <= t < pre.len() - 1 implies remote_only(
            sys,
            rem,
            #[trigger] pre[t],
        ) && dep_of(rem, pre[t], pre[t + 1]) by {
            assert(pre[t] == path[t]);
            assert(pre[t + 1] == path[t + 1]);
        }
        assert(demand_chain(sys, rem, roots, pre));
        lemma_chain_in_closure(sys, rem, roots, refs, pre);
        let p = pre.last();
        assert(p == path[path.len() - 2]);
        assert(remote_only(sys, rem, path[path.len() - 2]) && dep_of(
            rem,
            path[path.len() - 2],
            path[path.len() - 1],
        ));
        let j = choose|j: int| 0 <= j < refs.len() && (#[trigger] refs[j]).name@ == p;
        assert(ref_classified(sys, rem, refs[j]));
        assert(refs[j].origin is Remote);
        assert(deps_in_closure(sys, rem, refs, j));
        match index_lookup(rem, refs[j].name@) {
            Some(ds) => {
                assert(ds.contains(path.last()));
                let kk = choose|kk: int| 0 <= kk < ds.len() && ds[kk] == path.last();
                assert(index_has(sys, ds[kk]) || remote_only(sys, rem, ds[kk]));
                if index_has(sys, ds[kk]) {
                    assert(name_in(refs, ds[kk]));
                } else {
                    assert(name_before(refs, j, ds[kk]));
                    let j2 = choose|j2: int|
                        0 <= j2 < j && j2 < refs.len() && (#[trigger] refs[j2]).name@ == ds[kk];
                    assert(name_in(refs, ds[kk]));
                }
            },
            None => {
                assert(false);
            },
        }
    }
}

} // verus!
