//! What a result tells, and in which order, from the changes and the projects.
use crate::affected::{
    file_jobs, first_jobs, is_start, Changes, JobView, Start, WaitingView,
};
use crate::causes::{cause_key, components_key, component_rank, option_key, path_key, text_key};
use crate::followed::lemma_marked_pairs;
use crate::outcome::{
    global_causes, globally_marked, implicit_marked, invalidated, is_outcome,
    law_implicit_dependencies, project_names, some_depends, RunInfo,
};
use crate::paths::{components, same_path};
use crate::text::{codes, precedes, texts};
use crate::trace::TraceView;
use crate::types::{
    AffectedResult, CauseView, ChangedFile, GlobalTrigger, LockfileStrategy, Project,
    TrueAffectedConfig,
};
use crate::utils::is_source_path;
use vstd::prelude::*;

verus! {

/// Whether two lists of numbers are the same up to a place, where the first ends or
/// has the smaller number.
pub open spec fn differ_at(a: Seq<int>, b: Seq<int>, at: int) -> bool {
    &&& 0 <= at <= a.len()
    &&& at < b.len()
    &&& forall|i: int| 0 <= i < at ==> #[trigger] a[i] == b[i]
    &&& at < a.len() ==> a[at] < b[at]
}

/// A list comes before another where it ends first or has the smaller number at the
/// first place where the two differ.
pub proof fn law_precedes(a: Seq<int>, b: Seq<int>)
    ensures
        precedes(a, b) == exists|at: int| #[trigger] differ_at(a, b, at),
    decreases a.len(),
{
    if b.len() == 0 {
        assert forall|at: int| !#[trigger] differ_at(a, b, at) by {}
    } else if a.len() == 0 {
        assert(differ_at(a, b, 0));
    } else if a[0] != b[0] {
        if a[0] < b[0] {
            assert(differ_at(a, b, 0));
        } else {
            assert forall|at: int| !#[trigger] differ_at(a, b, at) by {}
        }
    } else {
        let x = a.skip(1);
        let y = b.skip(1);
        law_precedes(x, y);
        if precedes(x, y) {
            let at = choose|at: int| #[trigger] differ_at(x, y, at);
            assert forall|i: int| 0 <= i < at + 1 implies #[trigger] a[i] == b[i] by {
                if i > 0 {
                    assert(x[i - 1] == y[i - 1]);
                }
            }
            assert(differ_at(a, b, at + 1));
        }
        if exists|at: int| #[trigger] differ_at(a, b, at) {
            let at = choose|at: int| #[trigger] differ_at(a, b, at);
            assert forall|i: int| 0 <= i < at - 1 implies #[trigger] x[i] == y[i] by {
                assert(a[i + 1] == b[i + 1]);
            }
            assert(differ_at(x, y, at - 1));
        }
    }
}

/// A character is its code point.
proof fn lemma_code_point(c: char)
    ensures
        c as u32 as int == c as int,
{
}

/// How the keys of two texts with something behind them compare.
proof fn lemma_text_keys(a: Seq<char>, b: Seq<char>, x: Seq<int>, y: Seq<int>)
    ensures
        (text_key(a) + x == text_key(b) + y) == (a == b && x == y),
        precedes(text_key(a) + x, text_key(b) + y) == (precedes(codes(a), codes(b)) || (a == b
            && precedes(x, y))),
    decreases a.len(),
{
    let p = text_key(a) + x;
    let q = text_key(b) + y;
    if a.len() == 0 {
        assert(a =~= Seq::<char>::empty());
        assert(p[0] == 0);
        if b.len() == 0 {
            assert(b =~= a);
            assert(p.skip(1) =~= x);
            assert(q.skip(1) =~= y);
            assert(codes(b).len() == 0);
            assert(p =~= seq![0int] + x);
            assert(q =~= seq![0int] + y);
            assert((p == q) == (x == y));
            assert(precedes(p, q) == precedes(x, y));
        } else {
            assert(q[0] == b[0] as u32 + 1);
            assert(codes(a).len() == 0);
            assert(codes(b).len() > 0);
            assert(p != q);
            assert(precedes(p, q));
        }
    } else {
        assert(p[0] == a[0] as u32 + 1);
        if b.len() == 0 {
            assert(q[0] == 0);
            assert(codes(b).len() == 0);
            assert(a.len() != b.len());
        } else {
            assert(q[0] == b[0] as u32 + 1);
            assert(codes(a)[0] == a[0] as int);
            assert(codes(b)[0] == b[0] as int);
            if a[0] == b[0] {
                let s = a.skip(1);
                let t = b.skip(1);
                lemma_text_keys(s, t, x, y);
                assert(p.skip(1) =~= text_key(s) + x);
                assert(q.skip(1) =~= text_key(t) + y);
                assert(codes(a).skip(1) =~= codes(s));
                assert(codes(b).skip(1) =~= codes(t));
                assert(p =~= seq![p[0]] + p.skip(1));
                assert(q =~= seq![q[0]] + q.skip(1));
                assert(a =~= seq![a[0]] + s);
                assert(b =~= seq![b[0]] + t);
                assert((p == q) == (p.skip(1) == q.skip(1)));
                assert((a == b) == (s == t));
                assert(precedes(p, q) == precedes(p.skip(1), q.skip(1)));
                assert(precedes(codes(a), codes(b)) == precedes(codes(s), codes(t)));
            } else {
                lemma_code_point(a[0]);
                lemma_code_point(b[0]);
                assert(p[0] != q[0]);
                assert(a != b);
                assert(precedes(p, q) == (p[0] < q[0]));
                assert(precedes(codes(a), codes(b)) == (codes(a)[0] < codes(b)[0]));
            }
        }
    }
}

/// Where a component of a path stands: the root first, then a dot, then two dots, then
/// names.
pub open spec fn standing(component: Seq<char>) -> int {
    if component.len() == 1 && component[0] == '/' {
        0
    } else if component.len() == 1 && component[0] == '.' {
        1
    } else if component.len() == 2 && component[0] == '.' && component[1] == '.' {
        2
    } else {
        3
    }
}

/// A component is ranked by where it stands.
proof fn lemma_standing(component: Seq<char>)
    ensures
        component_rank(component) == standing(component) + 1,
{
    if component.len() == 1 && component[0] == '/' {
        assert(component =~= seq!['/']);
    }
    if component.len() == 1 && component[0] == '.' {
        assert(component =~= seq!['.']);
    }
    if component.len() == 2 && component[0] == '.' && component[1] == '.' {
        assert(component =~= seq!['.', '.']);
    }
}

/// Whether a component of a path comes before another: by where they stand, and names
/// in the order of their texts.
pub open spec fn component_before(a: Seq<char>, b: Seq<char>) -> bool {
    standing(a) < standing(b) || (standing(a) == standing(b) && precedes(codes(a), codes(b)))
}

/// Whether a list of components comes before another: at the first place where they
/// differ it ends, or has the component that comes before.
pub open spec fn components_before(a: Seq<Seq<char>>, b: Seq<Seq<char>>) -> bool
    decreases a.len(),
{
    if b.len() == 0 {
        false
    } else if a.len() == 0 {
        true
    } else {
        component_before(a[0], b[0]) || (a[0] == b[0] && components_before(a.skip(1), b.skip(1)))
    }
}

/// The key of components, told from the first.
proof fn lemma_components_key_first(list: Seq<Seq<char>>)
    requires
        list.len() > 0,
    ensures
        components_key(list) == seq![component_rank(list[0])] + text_key(list[0]) + components_key(
            list.skip(1),
        ),
    decreases list.len(),
{
    let head = seq![component_rank(list[0])] + text_key(list[0]);
    let rest = list.skip(1);
    if list.len() == 1 {
        assert(list.drop_last() =~= Seq::<Seq<char>>::empty());
        assert(rest =~= Seq::<Seq<char>>::empty());
        assert(components_key(list) =~= head + components_key(rest));
    } else {
        lemma_components_key_first(list.drop_last());
        assert(list.drop_last().skip(1) =~= rest.drop_last());
        assert(rest.last() == list.last());
        assert(components_key(list) =~= head + components_key(rest));
    }
}

/// How the keys of two lists of components with something behind them compare.
proof fn lemma_components_keys(
    a: Seq<Seq<char>>,
    b: Seq<Seq<char>>,
    x: Seq<int>,
    y: Seq<int>,
)
    ensures
        ((components_key(a).push(0) + x) == (components_key(b).push(0) + y)) == (a == b && x == y),
        precedes(components_key(a).push(0) + x, components_key(b).push(0) + y) == (
        components_before(a, b) || (a == b && precedes(x, y))),
    decreases a.len(),
{
    let p = components_key(a).push(0) + x;
    let q = components_key(b).push(0) + y;
    if a.len() > 0 {
        lemma_components_key_first(a);
        assert(p =~= seq![component_rank(a[0])] + (text_key(a[0]) + (components_key(
            a.skip(1),
        ).push(0) + x)));
    }
    if b.len() > 0 {
        lemma_components_key_first(b);
        assert(q =~= seq![component_rank(b[0])] + (text_key(b[0]) + (components_key(
            b.skip(1),
        ).push(0) + y)));
    }
    if a.len() == 0 {
        assert(a =~= Seq::<Seq<char>>::empty());
        assert(p =~= seq![0int] + x);
        assert(p.skip(1) =~= x);
        if b.len() == 0 {
            assert(b =~= a);
            assert(q =~= seq![0int] + y);
            assert(q.skip(1) =~= y);
        } else {
            assert(q[0] == component_rank(b[0]));
            assert(a.len() != b.len());
        }
    } else {
        assert(p[0] == component_rank(a[0]));
        if b.len() == 0 {
            assert(b =~= Seq::<Seq<char>>::empty());
            assert(q =~= seq![0int] + y);
            assert(q[0] == 0);
            assert(a.len() != b.len());
        } else {
            assert(q[0] == component_rank(b[0]));
            lemma_standing(a[0]);
            lemma_standing(b[0]);
            let u = components_key(a.skip(1)).push(0) + x;
            let v = components_key(b.skip(1)).push(0) + y;
            lemma_text_keys(a[0], b[0], u, v);
            lemma_components_keys(a.skip(1), b.skip(1), x, y);
            assert(p.skip(1) =~= text_key(a[0]) + u);
            assert(q.skip(1) =~= text_key(b[0]) + v);
            assert(p =~= seq![p[0]] + p.skip(1));
            assert(q =~= seq![q[0]] + q.skip(1));
            assert(a =~= seq![a[0]] + a.skip(1));
            assert(b =~= seq![b[0]] + b.skip(1));
            if a[0] == b[0] {
                crate::text::lemma_precedes_irreflexive(codes(a[0]));
            }
        }
    }
}

/// How the keys of two paths with something behind them compare.
proof fn lemma_path_keys(a: Seq<char>, b: Seq<char>, x: Seq<int>, y: Seq<int>)
    ensures
        (path_key(a) + x == path_key(b) + y) == (same_path(a, b) && x == y),
        precedes(path_key(a) + x, path_key(b) + y) == (components_before(
            components(a),
            components(b),
        ) || (same_path(a, b) && precedes(x, y))),
{
    lemma_components_keys(components(a), components(b), x, y);
}

/// Whether an optional name comes before another: none before any.
pub open spec fn symbol_before(a: Option<Seq<char>>, b: Option<Seq<char>>) -> bool {
    match (a, b) {
        (None, Some(_)) => true,
        (Some(s), Some(t)) => precedes(codes(s), codes(t)),
        _ => false,
    }
}

/// How the keys of two optional names with something behind them compare.
proof fn lemma_option_keys(
    a: Option<Seq<char>>,
    b: Option<Seq<char>>,
    x: Seq<int>,
    y: Seq<int>,
)
    ensures
        (option_key(a) + x == option_key(b) + y) == (a == b && x == y),
        precedes(option_key(a) + x, option_key(b) + y) == (symbol_before(a, b) || (a == b
            && precedes(x, y))),
{
    let p = option_key(a) + x;
    let q = option_key(b) + y;
    match (a, b) {
        (Some(s), Some(t)) => {
            lemma_text_keys(s, t, x, y);
            assert(p =~= seq![1int] + (text_key(s) + x));
            assert(q =~= seq![1int] + (text_key(t) + y));
            assert(p.skip(1) =~= text_key(s) + x);
            assert(q.skip(1) =~= text_key(t) + y);
            assert(p =~= seq![p[0]] + p.skip(1));
            assert(q =~= seq![q[0]] + q.skip(1));
        },
        (None, None) => {
            assert(p.skip(1) =~= x);
            assert(q.skip(1) =~= y);
            assert(p =~= seq![p[0]] + p.skip(1));
            assert(q =~= seq![q[0]] + q.skip(1));
        },
        (Some(s), None) => {
            assert(p[0] == 1 && q[0] == 0);
        },
        (None, Some(t)) => {
            assert(p[0] == 0 && q[0] == 1);
        },
    }
}

/// How single numbers compare.
proof fn lemma_last_numbers(m: int, n: int)
    ensures
        (seq![m] == seq![n]) == (m == n),
        precedes(seq![m], seq![n]) == (m < n),
{
    assert(seq![m][0] == m);
    assert(seq![n][0] == n);
    if m == n {
        crate::text::lemma_precedes_irreflexive(seq![m]);
    }
}

/// How keys of one kind compare.
proof fn lemma_same_kind(kind: int, x: Seq<int>, y: Seq<int>)
    ensures
        (seq![kind] + x == seq![kind] + y) == (x == y),
        precedes(seq![kind] + x, seq![kind] + y) == precedes(x, y),
{
    assert((seq![kind] + x).skip(1) =~= x);
    assert((seq![kind] + y).skip(1) =~= y);
}

/// The place of a cause's kind among the kinds.
pub open spec fn kind_of(cause: CauseView) -> int {
    match cause {
        CauseView::DirectChange { .. } => 0,
        CauseView::ImportedSymbol { .. } => 1,
        CauseView::ReExported { .. } => 2,
        CauseView::ImplicitDependency { .. } => 3,
        CauseView::AssetChange { .. } => 4,
        CauseView::LockfileChange { .. } => 5,
        CauseView::GlobalInvalidation { .. } => 6,
    }
}

/// Whether two causes say the same: of one kind, with the same paths, however they are
/// written, the same names and the same line.
pub open spec fn says_the_same(a: CauseView, b: CauseView) -> bool {
    match (a, b) {
        (
            CauseView::DirectChange { file, symbol, line },
            CauseView::DirectChange { file: f, symbol: s, line: l },
        ) => same_path(file, f) && symbol == s && line == l,
        (
            CauseView::ImportedSymbol { source_project, symbol, via_file, source_file },
            CauseView::ImportedSymbol {
                source_project: p,
                symbol: s,
                via_file: v,
                source_file: f,
            },
        ) => source_project == p && symbol == s && same_path(via_file, v) && same_path(
            source_file,
            f,
        ),
        (
            CauseView::ReExported { through_file, symbol, source_file },
            CauseView::ReExported { through_file: t, symbol: s, source_file: f },
        ) => same_path(through_file, t) && symbol == s && same_path(source_file, f),
        (
            CauseView::ImplicitDependency { depends_on },
            CauseView::ImplicitDependency { depends_on: d },
        ) => depends_on == d,
        (
            CauseView::AssetChange { asset_file, referenced_in, line },
            CauseView::AssetChange { asset_file: f, referenced_in: r, line: l },
        ) => same_path(asset_file, f) && same_path(referenced_in, r) && line == l,
        (
            CauseView::LockfileChange { dependency, importing_file },
            CauseView::LockfileChange { dependency: d, importing_file: f },
        ) => dependency == d && same_path(importing_file, f),
        (
            CauseView::GlobalInvalidation { file, named_input },
            CauseView::GlobalInvalidation { file: f, named_input: n },
        ) => same_path(file, f) && named_input == n,
        _ => false,
    }
}

/// Whether a path comes before another.
pub open spec fn path_before(a: Seq<char>, b: Seq<char>) -> bool {
    components_before(components(a), components(b))
}

/// Whether a name comes before another.
pub open spec fn name_before(a: Seq<char>, b: Seq<char>) -> bool {
    precedes(codes(a), codes(b))
}

/// Whether a cause of one kind comes before another of that kind: by its first part
/// that differs.
pub open spec fn parts_before(a: CauseView, b: CauseView) -> bool {
    match (a, b) {
        (
            CauseView::DirectChange { file, symbol, line },
            CauseView::DirectChange { file: f, symbol: s, line: l },
        ) => path_before(file, f) || (same_path(file, f) && (symbol_before(symbol, s) || (symbol
            == s && line < l))),
        (
            CauseView::ImportedSymbol { source_project, symbol, via_file, source_file },
            CauseView::ImportedSymbol {
                source_project: p,
                symbol: s,
                via_file: v,
                source_file: f,
            },
        ) => name_before(source_project, p) || (source_project == p && (name_before(symbol, s) || (
        symbol == s && (path_before(via_file, v) || (same_path(via_file, v) && path_before(
            source_file,
            f,
        )))))),
        (
            CauseView::ReExported { through_file, symbol, source_file },
            CauseView::ReExported { through_file: t, symbol: s, source_file: f },
        ) => path_before(through_file, t) || (same_path(through_file, t) && (name_before(symbol, s)
            || (symbol == s && path_before(source_file, f)))),
        (
            CauseView::ImplicitDependency { depends_on },
            CauseView::ImplicitDependency { depends_on: d },
        ) => name_before(depends_on, d),
        (
            CauseView::AssetChange { asset_file, referenced_in, line },
            CauseView::AssetChange { asset_file: f, referenced_in: r, line: l },
        ) => path_before(asset_file, f) || (same_path(asset_file, f) && (path_before(
            referenced_in,
            r,
        ) || (same_path(referenced_in, r) && line < l))),
        (
            CauseView::LockfileChange { dependency, importing_file },
            CauseView::LockfileChange { dependency: d, importing_file: f },
        ) => name_before(dependency, d) || (dependency == d && path_before(importing_file, f)),
        (
            CauseView::GlobalInvalidation { file, named_input },
            CauseView::GlobalInvalidation { file: f, named_input: n },
        ) => path_before(file, f) || (same_path(file, f) && name_before(named_input, n)),
        _ => false,
    }
}

/// Two causes are taken for one exactly where they say the same. Otherwise they are
/// listed by their kinds, and within a kind by the first part in which they differ.
#[verifier::rlimit(60)]
pub proof fn law_cause_order(a: CauseView, b: CauseView)
    ensures
        (cause_key(a) == cause_key(b)) == says_the_same(a, b),
        precedes(cause_key(a), cause_key(b)) == (kind_of(a) < kind_of(b) || parts_before(a, b)),
{
    let empty = Seq::<int>::empty();
    assert(cause_key(a)[0] == kind_of(a));
    assert(cause_key(b)[0] == kind_of(b));
    crate::text::lemma_precedes_irreflexive(empty);
    match (a, b) {
        (
            CauseView::DirectChange { file, symbol, line },
            CauseView::DirectChange { file: f, symbol: s, line: l },
        ) => {
            let x = option_key(symbol) + seq![line as int];
            let y = option_key(s) + seq![l as int];
            lemma_same_kind(0, path_key(file) + x, path_key(f) + y);
            lemma_path_keys(file, f, x, y);
            lemma_option_keys(symbol, s, seq![line as int], seq![l as int]);
            lemma_last_numbers(line as int, l as int);
            assert(cause_key(a) =~= seq![0int] + (path_key(file) + x));
            assert(cause_key(b) =~= seq![0int] + (path_key(f) + y));
        },
        (
            CauseView::ImportedSymbol { source_project, symbol, via_file, source_file },
            CauseView::ImportedSymbol {
                source_project: p,
                symbol: s,
                via_file: v,
                source_file: f,
            },
        ) => {
            let x3 = path_key(source_file) + empty;
            let y3 = path_key(f) + empty;
            let x2 = path_key(via_file) + x3;
            let y2 = path_key(v) + y3;
            let x1 = text_key(symbol) + x2;
            let y1 = text_key(s) + y2;
            lemma_same_kind(1, text_key(source_project) + x1, text_key(p) + y1);
            lemma_text_keys(source_project, p, x1, y1);
            lemma_text_keys(symbol, s, x2, y2);
            lemma_path_keys(via_file, v, x3, y3);
            lemma_path_keys(source_file, f, empty, empty);
            assert(cause_key(a) =~= seq![1int] + (text_key(source_project) + x1));
            assert(cause_key(b) =~= seq![1int] + (text_key(p) + y1));
        },
        (
            CauseView::ReExported { through_file, symbol, source_file },
            CauseView::ReExported { through_file: t, symbol: s, source_file: f },
        ) => {
            let x2 = path_key(source_file) + empty;
            let y2 = path_key(f) + empty;
            let x1 = text_key(symbol) + x2;
            let y1 = text_key(s) + y2;
            lemma_same_kind(2, path_key(through_file) + x1, path_key(t) + y1);
            lemma_path_keys(through_file, t, x1, y1);
            lemma_text_keys(symbol, s, x2, y2);
            lemma_path_keys(source_file, f, empty, empty);
            assert(cause_key(a) =~= seq![2int] + (path_key(through_file) + x1));
            assert(cause_key(b) =~= seq![2int] + (path_key(t) + y1));
        },
        (
            CauseView::ImplicitDependency { depends_on },
            CauseView::ImplicitDependency { depends_on: d },
        ) => {
            lemma_same_kind(3, text_key(depends_on) + empty, text_key(d) + empty);
            lemma_text_keys(depends_on, d, empty, empty);
            assert(cause_key(a) =~= seq![3int] + (text_key(depends_on) + empty));
            assert(cause_key(b) =~= seq![3int] + (text_key(d) + empty));
        },
        (
            CauseView::AssetChange { asset_file, referenced_in, line },
            CauseView::AssetChange { asset_file: f, referenced_in: r, line: l },
        ) => {
            let x = path_key(referenced_in) + seq![line as int];
            let y = path_key(r) + seq![l as int];
            lemma_same_kind(4, path_key(asset_file) + x, path_key(f) + y);
            lemma_path_keys(asset_file, f, x, y);
            lemma_path_keys(referenced_in, r, seq![line as int], seq![l as int]);
            lemma_last_numbers(line as int, l as int);
            assert(cause_key(a) =~= seq![4int] + (path_key(asset_file) + x));
            assert(cause_key(b) =~= seq![4int] + (path_key(f) + y));
        },
        (
            CauseView::LockfileChange { dependency, importing_file },
            CauseView::LockfileChange { dependency: d, importing_file: f },
        ) => {
            let x = path_key(importing_file) + empty;
            let y = path_key(f) + empty;
            lemma_same_kind(5, text_key(dependency) + x, text_key(d) + y);
            lemma_text_keys(dependency, d, x, y);
            lemma_path_keys(importing_file, f, empty, empty);
            assert(cause_key(a) =~= seq![5int] + (text_key(dependency) + x));
            assert(cause_key(b) =~= seq![5int] + (text_key(d) + y));
        },
        (
            CauseView::GlobalInvalidation { file, named_input },
            CauseView::GlobalInvalidation { file: f, named_input: n },
        ) => {
            let x = text_key(named_input) + empty;
            let y = text_key(n) + empty;
            lemma_same_kind(6, path_key(file) + x, path_key(f) + y);
            lemma_path_keys(file, f, x, y);
            lemma_text_keys(named_input, n, empty, empty);
            assert(cause_key(a) =~= seq![6int] + (path_key(file) + x));
            assert(cause_key(b) =~= seq![6int] + (path_key(f) + y));
        },
        _ => {},
    }
}

/// Whether a changed file is the lockfile.
pub open spec fn is_the_lockfile(changes: Changes, file: ChangedFile) -> bool {
    changes.lockfile_name matches Some(name) && file.file_path@ == name@
}

/// The jobs of changed files are one for each that is no lockfile and of the kind, in
/// order.
proof fn lemma_file_jobs(changes: Changes, source: bool, upto: nat)
    requires
        upto <= changes.changed_files@.len(),
    ensures
        file_jobs(changes.changed_files@, changes.lockfile_name, source, upto)
            == changes.changed_files@.take(upto as int).filter(
            |f: ChangedFile|
                !is_the_lockfile(changes, f) && is_source_path(f.file_path@) == source,
        ).map_values(
            |f: ChangedFile|
                if source {
                    JobView::Source { path: f.file_path@, lines: f.changed_lines@ }
                } else {
                    JobView::Asset { path: f.file_path@, lines: f.changed_lines@ }
                },
        ),
    decreases upto,
{
    reveal(Seq::filter);
    let files = changes.changed_files@;
    let taken = |f: ChangedFile|
        !is_the_lockfile(changes, f) && is_source_path(f.file_path@) == source;
    let made = |f: ChangedFile|
        if source {
            JobView::Source { path: f.file_path@, lines: f.changed_lines@ }
        } else {
            JobView::Asset { path: f.file_path@, lines: f.changed_lines@ }
        };
    if upto == 0 {
        assert(files.take(0).filter(taken).map_values(made) =~= Seq::<JobView>::empty());
    } else {
        let fewer = (upto - 1) as nat;
        lemma_file_jobs(changes, source, fewer);
        let all = files.take(upto as int);
        assert(all.drop_last() =~= files.take(fewer as int));
        assert(all.last() == files[upto - 1]);
        assert(file_jobs(files, changes.lockfile_name, source, upto) =~= all.filter(
            taken,
        ).map_values(made));
    }
}

/// An analysis starts with a job for each changed file but the lockfile: the last job
/// comes first, so the source files come in order, then the other files in order. The
/// lockfile comes at the end, where it was changed and the strategy looks at it.
pub proof fn law_first_jobs(changes: Changes, strategy: LockfileStrategy)
    ensures
        ({
            let jobs = first_jobs(changes, strategy);
            let files = changes.changed_files@;
            let sources = files.filter(
                |f: ChangedFile| !is_the_lockfile(changes, f) && is_source_path(f.file_path@),
            );
            let assets = files.filter(
                |f: ChangedFile| !is_the_lockfile(changes, f) && !is_source_path(f.file_path@),
            );
            let looks = changes.lockfile_changed && (strategy == LockfileStrategy::Direct
                || strategy == LockfileStrategy::Full);
            let n = jobs.len() as int;
            &&& n == sources.len() + assets.len() + if looks {
                1int
            } else {
                0int
            }
            &&& forall|k: int|
                0 <= k < sources.len() ==> jobs[n - 1 - k] == (JobView::Source {
                    path: (#[trigger] sources[k]).file_path@,
                    lines: sources[k].changed_lines@,
                })
            &&& forall|k: int|
                0 <= k < assets.len() ==> jobs[n - 1 - sources.len() - k] == (JobView::Asset {
                    path: (#[trigger] assets[k]).file_path@,
                    lines: assets[k].changed_lines@,
                })
            &&& looks ==> jobs[0] == JobView::Lockfile
        }),
{
    let files = changes.changed_files@;
    lemma_file_jobs(changes, true, files.len());
    lemma_file_jobs(changes, false, files.len());
    assert(files.take(files.len() as int) =~= files);
    let jobs = first_jobs(changes, strategy);
    let sources = files.filter(
        |f: ChangedFile| !is_the_lockfile(changes, f) && is_source_path(f.file_path@),
    );
    let assets = files.filter(
        |f: ChangedFile| !is_the_lockfile(changes, f) && !is_source_path(f.file_path@),
    );
    assert(sources == files.filter(
        |f: ChangedFile| !is_the_lockfile(changes, f) && is_source_path(f.file_path@) == true,
    )) by {
        lemma_same_filter(
            files,
            |f: ChangedFile| !is_the_lockfile(changes, f) && is_source_path(f.file_path@),
            |f: ChangedFile| !is_the_lockfile(changes, f) && is_source_path(f.file_path@) == true,
        );
    }
    assert(assets == files.filter(
        |f: ChangedFile| !is_the_lockfile(changes, f) && is_source_path(f.file_path@) == false,
    )) by {
        lemma_same_filter(
            files,
            |f: ChangedFile| !is_the_lockfile(changes, f) && !is_source_path(f.file_path@),
            |f: ChangedFile| !is_the_lockfile(changes, f) && is_source_path(f.file_path@) == false,
        );
    }
}

/// Conditions that agree leave the same items.
proof fn lemma_same_filter<A>(list: Seq<A>, p: spec_fn(A) -> bool, q: spec_fn(A) -> bool)
    requires
        forall|a: A| #[trigger] p(a) == q(a),
    ensures
        list.filter(p) == list.filter(q),
{
    assert(p =~= q);
}

/// What is known at once: nothing is affected where nothing was changed, and without a
/// report everything is, each project once, where a global trigger fired. Otherwise
/// the change is analyzed, from nothing.
pub proof fn law_start(
    start: Start,
    config: TrueAffectedConfig,
    changes: Changes,
    generate_report: bool,
    name: Seq<char>,
)
    requires
        is_start(start, config, changes, generate_report),
    ensures
        changes.total_changed_files == 0 ==> start is Known
            && start->Known_0.affected_projects@.len() == 0 && start->Known_0.report is None,
        changes.total_changed_files > 0 && changes.global_triggers@.len() > 0 && !generate_report
            ==> start is Known && start->Known_0.report is None
            && start->Known_0.affected_projects@.len() == config.projects@.len() && texts(
            start->Known_0.affected_projects@,
        ).contains(name) == exists|i: int|
            0 <= i < config.projects@.len() && (#[trigger] config.projects@[i]).name@ == name,
        changes.total_changed_files > 0 && (changes.global_triggers@.len() == 0 || generate_report)
            ==> start is Analyze && ({
            let analysis = start->Analyze_0@;
            &&& analysis.jobs == first_jobs(changes, config.lockfile_strategy)
            &&& analysis.strategy == config.lockfile_strategy
            &&& analysis.waiting == WaitingView::Nothing
            &&& analysis.trace.generate_report == generate_report
            &&& !analysis.trace.affected.contains(name)
            &&& !analysis.trace.causes.dom().contains(name)
            &&& !analysis.trace.spare.dom().contains(name)
            &&& analysis.trace.is_done()
        }),
{
    if let Start::Known(result) = start {
        let list = texts(result.affected_projects@);
        assert(list.len() == result.affected_projects@.len());
        if changes.total_changed_files > 0 {
            let all = project_names(config.projects@);
            broadcast use vstd::seq_lib::group_to_multiset_ensures;

            assert(list.to_multiset().len() == all.to_multiset().len());
            assert(list.contains(name) == (list.to_multiset().count(name) > 0));
            assert(all.contains(name) == (all.to_multiset().count(name) > 0));
            if all.contains(name) {
                let i = choose|i: int| 0 <= i < all.len() && all[i] == name;
                assert(config.projects@[i].name@ == name);
            }
            if exists|i: int|
                0 <= i < config.projects@.len() && (#[trigger] config.projects@[i]).name@ == name {
                let i = choose|i: int|
                    0 <= i < config.projects@.len() && (#[trigger] config.projects@[i]).name@
                        == name;
                assert(all[i] == name);
            }
        }
    }
}

/// A result names exactly the projects that the analysis found, those that depend
/// implicitly on one of these, and all where a global trigger fired; each once, in the
/// order of their names.
pub proof fn law_result(
    result: AffectedResult,
    trace: TraceView,
    projects: Seq<Project>,
    triggers: Seq<GlobalTrigger>,
    run: RunInfo,
    name: Seq<char>,
    i: int,
    j: int,
)
    requires
        is_outcome(result, trace, projects, triggers, run),
    ensures
        texts(result.affected_projects@).contains(name) == ({
            ||| trace.affected.contains(name)
            ||| exists|p: int, d: int|
                0 <= p < projects.len() && projects[p].name@ == name && 0 <= d
                    < projects[p].implicit_dependencies@.len() && trace.affected.contains(
                    #[trigger] projects[p].implicit_dependencies@[d]@,
                )
            ||| triggers.len() > 0 && exists|p: int|
                0 <= p < projects.len() && (#[trigger] projects[p]).name@ == name
        }),
        0 <= i < j < result.affected_projects@.len() ==> precedes(
            codes(result.affected_projects@[i]@),
            codes(result.affected_projects@[j]@),
        ),
        result.report is Some == trace.generate_report,
{
    let list = texts(result.affected_projects@);
    let semantic = implicit_marked(trace, projects);
    let all = globally_marked(semantic, projects, triggers);
    assert(list.contains(name) == all.affected.contains(name)) by {
        assert(list.to_set().contains(name) == list.contains(name));
    }
    law_implicit_dependencies(trace, projects, name, name);
    let some = invalidated(projects, triggers);
    assert(some.to_set().contains(name) == some.contains(name));
    assert(all.affected.contains(name) == (semantic.affected.contains(name) || some.contains(
        name,
    )));
    let fired = triggers.len() > 0 && exists|p: int|
        0 <= p < projects.len() && (#[trigger] projects[p]).name@ == name;
    assert(some.contains(name) == fired) by {
        if some.contains(name) {
            let p = choose|p: int| 0 <= p < some.len() && some[p] == name;
            assert(projects[p].name@ == name);
        }
        if fired {
            let p = choose|p: int|
                0 <= p < projects.len() && (#[trigger] projects[p]).name@ == name;
            assert(some[p] == name);
        }
    }
    let depends = exists|p: int, d: int|
        0 <= p < projects.len() && projects[p].name@ == name && 0 <= d
            < projects[p].implicit_dependencies@.len() && trace.affected.contains(
            #[trigger] projects[p].implicit_dependencies@[d]@,
        );
    let through = exists|d: Seq<char>|
        trace.affected.contains(d) && #[trigger] some_depends(projects, name, d);
    assert(depends == through) by {
        if depends {
            let (p, d) = choose|p: int, d: int|
                0 <= p < projects.len() && projects[p].name@ == name && 0 <= d
                    < projects[p].implicit_dependencies@.len() && trace.affected.contains(
                    #[trigger] projects[p].implicit_dependencies@[d]@,
                );
            let dependency = projects[p].implicit_dependencies@[d]@;
            assert(texts(projects[p].implicit_dependencies@)[d] == dependency);
            assert(some_depends(projects, name, dependency));
        }
        if through {
            let dependency = choose|d: Seq<char>|
                trace.affected.contains(d) && #[trigger] some_depends(projects, name, d);
            let p = choose|p: int|
                0 <= p < projects.len() && (#[trigger] projects[p]).name@ == name
                    && crate::outcome::depends_implicitly(projects[p], dependency);
            let own = texts(projects[p].implicit_dependencies@);
            let d = choose|d: int| 0 <= d < own.len() && own[d] == dependency;
            assert(projects[p].implicit_dependencies@[d]@ == dependency);
        }
    }
    if 0 <= i < j < result.affected_projects@.len() {
        assert(list[i] == result.affected_projects@[i]@);
        assert(list[j] == result.affected_projects@[j]@);
        assert(list[i] != list[j]);
        if codes(list[i]) == codes(list[j]) {
            assert(list[i] =~= list[j]) by {
                assert(codes(list[i]).len() == codes(list[j]).len());
                assert forall|k: int| 0 <= k < list[i].len() implies list[i][k] == list[j][k] by {
                    assert(codes(list[i])[k] == codes(list[j])[k]);
                }
            }
        }
        crate::text::lemma_precedes_total(codes(list[i]), codes(list[j]));
    }
}

/// A report counts every project of the result once: as affected by the change itself,
/// or by a global trigger alone. Without triggers nothing counts as globally
/// invalidated. With triggers every project does, or counts as affected both ways.
pub proof fn law_totals(
    result: AffectedResult,
    trace: TraceView,
    projects: Seq<Project>,
    triggers: Seq<GlobalTrigger>,
    run: RunInfo,
)
    requires
        is_outcome(result, trace, projects, triggers, run),
        trace.generate_report,
    ensures
        ({
            let totals = result.report->0.totals;
            &&& totals.globally_invalidated + totals.semantically_affected
                == result.affected_projects@.len()
            &&& triggers.len() == 0 ==> totals.globally_invalidated == 0 && totals.overlap == 0
            &&& triggers.len() > 0 ==> totals.globally_invalidated + totals.overlap
                == project_names(projects).to_set().len()
            &&& totals.overlap <= totals.semantically_affected
            &&& totals.changed_files == run.changed_files
            &&& result.report->0.version == run.version
            &&& result.report->0.run_started_at_unix_secs == run.started_at_unix_secs
            &&& result.report->0.global_triggers@ == triggers
        }),
{
    let list = texts(result.affected_projects@);
    let semantic = implicit_marked(trace, projects).affected;
    let all = globally_marked(implicit_marked(trace, projects), projects, triggers).affected;
    let some = invalidated(projects, triggers).to_set();
    assert(all == semantic + some);
    list.unique_seq_to_set();
    assert(all.len() == list.len());
    vstd::seq_lib::seq_to_set_is_finite(list);
    vstd::seq_lib::seq_to_set_is_finite(invalidated(projects, triggers));
    assert(semantic.subset_of(all));
    vstd::set_lib::lemma_set_subset_finite(all, semantic);
    let both = some.intersect(semantic);
    let alone = some.difference(semantic);
    vstd::set_lib::lemma_set_disjoint_lens(both, alone);
    assert(both + alone =~= some);
    vstd::set_lib::lemma_set_disjoint_lens(semantic, alone);
    assert(semantic + alone =~= all);
    vstd::set_lib::lemma_len_subset(both, semantic);
    if triggers.len() == 0 {
        assert(some =~= Set::empty());
        assert(both =~= Set::empty());
    }
}

/// Where a global trigger fired, every project has a cause for each trigger.
pub proof fn law_trigger_causes(
    trace: TraceView,
    projects: Seq<Project>,
    triggers: Seq<GlobalTrigger>,
    p: int,
    t: int,
)
    requires
        trace.generate_report,
        0 <= p < projects.len(),
        0 <= t < triggers.len(),
    ensures
        crate::causes::list_of(
            globally_marked(trace, projects, triggers).causes,
            projects[p].name@,
        ).contains(
            CauseView::GlobalInvalidation {
                file: triggers[t].file@,
                named_input: triggers[t].named_input@,
            },
        ),
{
    let cause = CauseView::GlobalInvalidation {
        file: triggers[t].file@,
        named_input: triggers[t].named_input@,
    };
    let names = invalidated(projects, triggers);
    assert(names[p] == projects[p].name@);
    assert(global_causes(triggers)[t] == cause);
    lemma_marked_pairs(trace, names, global_causes(triggers), projects[p].name@, cause);
}

} // verus!
