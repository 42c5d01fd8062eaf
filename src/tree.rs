//! Structure scan of hierarchical sources: paths, types, population, examples, and
//! the recommended profiling mode.
use vstd::prelude::*;
use crate::json::{detected_format, json_of, lossy_of, parse_json, utf8_lossy, JsonFormat, JsonParser, JsonValue};
use crate::text::{chars_of, string_of, trim_chars, trimmed};

verus! {

/// Data type observed at a path.
#[derive(Clone, Copy, Debug, PartialEq, Eq, Structural)]
pub enum NodeType {
    Object,
    Array,
    String,
    Number,
    Boolean,
    Null,
    Mixed,
}

/// Recommended way to present a hierarchical source.
#[derive(Clone, Copy, Debug, PartialEq, Eq, Structural)]
pub enum ProfilingMode {
    Tabular,
    Tree,
}

/// Limits of the structure scan.
#[derive(Clone, Copy, Debug)]
pub struct StructureConfig {
    pub max_sample_rows: usize,
    pub collect_examples: bool,
}

impl Default for StructureConfig {
    /// A thousand records, with examples.
    fn default() -> (r: Self)
        ensures
            r.max_sample_rows == 1000,
            r.collect_examples,
    {
        StructureConfig { max_sample_rows: 1000, collect_examples: true }
    }
}

/// One path of the structure tree. `count` is the number of records in which the
/// path occurs; the population share is `count / rows_sampled`.
#[derive(Debug)]
pub struct TreeNode {
    pub path: String,
    pub depth: usize,
    pub data_type: NodeType,
    pub count: usize,
    pub child_count: usize,
    pub examples: Vec<String>,
    pub children: Vec<TreeNode>,
}

impl TreeNode {
    pub fn new(path: String, depth: usize, data_type: NodeType) -> (r: Self)
        ensures
            r.path@ == path@,
            r.depth == depth,
            r.data_type == data_type,
            r.count == 0,
            r.child_count == 0,
            r.examples@.len() == 0,
            r.children@.len() == 0,
    {
        TreeNode {
            path,
            depth,
            data_type,
            count: 0,
            child_count: 0,
            examples: Vec::new(),
            children: Vec::new(),
        }
    }

    /// Attaches a child.
    pub fn add_child(&mut self, child: TreeNode)
        requires
            old(self).child_count < usize::MAX,
        ensures
            final(self).child_count == old(self).child_count + 1,
            final(self).children@ == old(self).children@.push(child),
            final(self).path@ == old(self).path@,
            final(self).examples@ == old(self).examples@,
            final(self).count == old(self).count,
            final(self).depth == old(self).depth,
            final(self).data_type == old(self).data_type,
    {
        self.child_count = self.child_count + 1;
        self.children.push(child);
    }

    /// Keeps an example value, up to three.
    pub fn add_example(&mut self, value: String)
        ensures
            final(self).examples@ == (if old(self).examples@.len() < 3 {
                old(self).examples@.push(value)
            } else {
                old(self).examples@
            }),
            final(self).children@ == old(self).children@,
    {
        if self.examples.len() < 3 {
            self.examples.push(value);
        }
    }
}

/// Every node of the tree counts its children and keeps at most three examples.
pub open spec fn tree_ok(n: TreeNode) -> bool
    decreases n,
{
    &&& n.child_count == n.children@.len()
    &&& n.examples@.len() <= 3
    &&& forall|i: int| 0 <= i < n.children@.len() ==> tree_ok(#[trigger] n.children@[i])
}

/// Recommended mode: a tree for deep (more than five levels) or wide (more than a
/// thousand paths) sources, else a table.
pub open spec fn mode_for(max_depth: usize, total_paths: usize) -> ProfilingMode {
    if max_depth > 5 || total_paths > 1000 {
        ProfilingMode::Tree
    } else {
        ProfilingMode::Tabular
    }
}

/// The outcome of a structure scan.
#[derive(Debug)]
pub struct StructureAnalysis {
    pub max_depth: usize,
    pub total_paths: usize,
    pub rows_sampled: usize,
    pub tree: TreeNode,
    pub recommended_mode: ProfilingMode,
}

impl StructureAnalysis {
    pub fn new() -> (r: Self)
        ensures
            r.max_depth == 0,
            r.total_paths == 0,
            r.rows_sampled == 0,
            r.recommended_mode == ProfilingMode::Tabular,
            r.tree.path@ == "$"@,
    {
        StructureAnalysis {
            max_depth: 0,
            total_paths: 0,
            rows_sampled: 0,
            tree: TreeNode::new(String::from_str("$"), 0, NodeType::Object),
            recommended_mode: ProfilingMode::Tabular,
        }
    }

    pub fn determine_mode(&mut self)
        ensures
            final(self).recommended_mode == mode_for(old(self).max_depth, old(self).total_paths),
            final(self).max_depth == old(self).max_depth,
            final(self).total_paths == old(self).total_paths,
            final(self).rows_sampled == old(self).rows_sampled,
            final(self).tree == old(self).tree,
    {
        if self.max_depth > 5 || self.total_paths > 1000 {
            self.recommended_mode = ProfilingMode::Tree;
        } else {
            self.recommended_mode = ProfilingMode::Tabular;
        }
    }
}

/// What the scan knows of one path.
pub struct PathInfo {
    pub path: String,
    pub count: usize,
    pub types_seen: Vec<NodeType>,
    pub examples: Vec<String>,
    pub depth: usize,
}

/// The type reported for a path: the one type seen, or mixed.
pub open spec fn node_type_of(types: Seq<NodeType>) -> NodeType {
    if types.len() == 1 {
        types[0]
    } else {
        NodeType::Mixed
    }
}

/// The path of the enclosing value: everything before the last `.`, or the root.
pub open spec fn parent_path(p: Seq<char>) -> Seq<char> {
    if p == "$"@ {
        "$"@
    } else if exists|i: int| 0 <= i < p.len() && p[i] == '.' {
        let i = choose|i: int|
            0 <= i < p.len() && p[i] == '.' && forall|j: int| i < j < p.len() ==> p[j] != '.';
        p.take(i)
    } else {
        "$"@
    }
}

/// The type observed for a value.
pub open spec fn node_type_for(v: JsonValue) -> NodeType {
    match v {
        JsonValue::Object(..) => NodeType::Object,
        JsonValue::Array(..) => NodeType::Array,
        JsonValue::Text(..) => NodeType::String,
        JsonValue::Number(..) => NodeType::Number,
        JsonValue::Bool(..) => NodeType::Boolean,
        JsonValue::Null => NodeType::Null,
    }
}

/// One more occurrence, held at `usize::MAX`.
pub open spec fn bump(c: usize) -> usize {
    if c < usize::MAX {
        (c + 1) as usize
    } else {
        c
    }
}

/// The path of member `key` under `path`.
pub open spec fn member_path(path: Seq<char>, key: Seq<char>) -> Seq<char> {
    path + "."@ + key
}

/// Members of an object; none for any other value.
pub open spec fn member_count(v: JsonValue) -> nat {
    match v {
        JsonValue::Object(es, _) => es@.len(),
        _ => 0,
    }
}

/// The (path, depth, type, example) visits a scan makes in `v` at `path`, in the order it meets them:
/// the value itself, then each member of an object in turn, one level deeper. Arrays
/// are not entered.
pub open spec fn visits(v: JsonValue, path: Seq<char>, depth: usize) -> Seq<(Seq<char>, usize, NodeType, Seq<char>)>
    decreases v, member_count(v) + 1,
{
    seq![(path, depth, node_type_for(v), example_text(v))] + match v {
        JsonValue::Object(es, _) => member_visits(v, path, depth, es@.len()),
        _ => Seq::empty(),
    }
}

/// The pairs met in the first `n` members of the object `v`.
pub open spec fn member_visits(v: JsonValue, path: Seq<char>, depth: usize, n: nat) -> Seq<
    (Seq<char>, usize, NodeType, Seq<char>),
>
    decreases v, n,
{
    match v {
        JsonValue::Object(es, _) => if n == 0 || n > es@.len() {
            Seq::empty()
        } else {
            member_visits(v, path, depth, (n - 1) as nat) + visits(
                es@[n - 1].1,
                member_path(path, es@[n - 1].0@),
                bump(depth),
            )
        },
        _ => Seq::empty(),
    }
}

/// The distinct paths of a visit log, in the order first met.
pub open spec fn seen_paths(log: Seq<(Seq<char>, usize, NodeType, Seq<char>)>) -> Seq<Seq<char>>
    decreases log.len(),
{
    if log.len() == 0 {
        Seq::empty()
    } else {
        let before = seen_paths(log.drop_last());
        if before.contains(log.last().0) {
            before
        } else {
            before.push(log.last().0)
        }
    }
}

/// How many times `path` was met, held at `usize::MAX`.
pub open spec fn times_met(log: Seq<(Seq<char>, usize, NodeType, Seq<char>)>, path: Seq<char>) -> usize
    decreases log.len(),
{
    if log.len() == 0 {
        0
    } else if log.last().0 == path {
        bump(times_met(log.drop_last(), path))
    } else {
        times_met(log.drop_last(), path)
    }
}

/// The distinct types met at `path`, in the order first met.
pub open spec fn types_met(log: Seq<(Seq<char>, usize, NodeType, Seq<char>)>, path: Seq<char>) -> Seq<NodeType>
    decreases log.len(),
{
    if log.len() == 0 {
        Seq::empty()
    } else {
        let before = types_met(log.drop_last(), path);
        if log.last().0 == path && !before.contains(log.last().2) {
            before.push(log.last().2)
        } else {
            before
        }
    }
}

/// The text a value offers as an example: a string, a number's text, or a boolean;
/// empty for anything else.
pub open spec fn example_text(v: JsonValue) -> Seq<char> {
    match v {
        JsonValue::Text(s) => s@,
        JsonValue::Number(n) => n@,
        JsonValue::Bool(b) => if b {
            "true"@
        } else {
            "false"@
        },
        _ => Seq::empty(),
    }
}

/// The first three non-empty examples met at `path`, when examples are kept.
pub open spec fn examples_met(log: Seq<(Seq<char>, usize, NodeType, Seq<char>)>, path: Seq<char>, keep: bool) -> Seq<Seq<char>>
    decreases log.len(),
{
    if log.len() == 0 {
        Seq::empty()
    } else {
        let before = examples_met(log.drop_last(), path, keep);
        if log.last().0 == path && keep && before.len() < 3 && log.last().3.len() > 0 {
            before.push(log.last().3)
        } else {
            before
        }
    }
}

/// The deepest level met.
pub open spec fn deepest(log: Seq<(Seq<char>, usize, NodeType, Seq<char>)>) -> usize
    decreases log.len(),
{
    if log.len() == 0 {
        0
    } else if log.last().1 > deepest(log.drop_last()) {
        log.last().1
    } else {
        deepest(log.drop_last())
    }
}

/// The pairs met over whole records, each scanned from the root `$`.
pub open spec fn record_visits(recs: Seq<JsonValue>) -> Seq<(Seq<char>, usize, NodeType, Seq<char>)>
    decreases recs.len(),
{
    if recs.len() == 0 {
        Seq::empty()
    } else {
        record_visits(recs.drop_last()) + visits(recs.last(), "$"@, 0)
    }
}

/// Paths met during the scan, in discovery order, with the deepest level seen.
pub struct PathTracker {
    pub paths: Vec<PathInfo>,
    pub max_depth: usize,
    pub collect_examples: bool,
    /// Every (path, depth) met so far, in order.
    pub log: Ghost<Seq<(Seq<char>, usize, NodeType, Seq<char>)>>,
}

/// A path never met has been met zero times.
proof fn lemma_unseen_never_met(log: Seq<(Seq<char>, usize, NodeType, Seq<char>)>, p: Seq<char>)
    requires
        !seen_paths(log).contains(p),
    ensures
        times_met(log, p) == 0,
        types_met(log, p) == Seq::<NodeType>::empty(),
        forall|keep: bool| #[trigger] examples_met(log, p, keep) == Seq::<Seq<char>>::empty(),
    decreases log.len(),
{
    if log.len() > 0 {
        let before = seen_paths(log.drop_last());
        if before.contains(p) {
            let w = choose|w: int| 0 <= w < before.len() && before[w] == p;
            if !before.contains(log.last().0) {
                assert(seen_paths(log)[w] == p);
            }
        }
        if log.last().0 == p {
            assert(seen_paths(log).contains(p)) by {
                if before.contains(p) {
                } else {
                    assert(seen_paths(log)[before.len() as int] == p);
                }
            }
        }
        lemma_unseen_never_met(log.drop_last(), p);
        assert(log.last().0 != p);
        assert forall|keep: bool| #[trigger] examples_met(log, p, keep) == Seq::<Seq<char>>::empty() by {
            assert(examples_met(log.drop_last(), p, keep) == Seq::<Seq<char>>::empty());
        }
    }
}

impl PathTracker {
    pub open spec fn path_names(&self) -> Seq<Seq<char>> {
        self.paths@.map_values(|p: PathInfo| p.path@)
    }

    pub open spec fn wf(&self) -> bool {
        &&& self.path_names().no_duplicates()
        &&& forall|i: int| 0 <= i < self.paths@.len() ==> #[trigger] self.paths@[i].types_seen@.len() >= 1
        &&& forall|i: int| 0 <= i < self.paths@.len() ==> #[trigger] self.paths@[i].examples@.len() <= 3
        &&& self.path_names() == seen_paths(self.log@)
        &&& forall|i: int|
            0 <= i < self.paths@.len() ==> #[trigger] self.paths@[i].count == times_met(
                self.log@,
                self.paths@[i].path@,
            )
        &&& self.max_depth == deepest(self.log@)
        &&& forall|i: int|
            0 <= i < self.paths@.len() ==> #[trigger] self.paths@[i].types_seen@ == types_met(
                self.log@,
                self.paths@[i].path@,
            )
        &&& forall|i: int|
            0 <= i < self.paths@.len() ==> #[trigger] self.paths@[i].examples.deep_view()
                == examples_met(self.log@, self.paths@[i].path@, self.collect_examples)
    }

    pub fn new(collect_examples: bool) -> (r: Self)
        ensures
            r.wf(),
            r.paths@.len() == 0,
            r.max_depth == 0,
            r.collect_examples == collect_examples,
            r.log@ == Seq::<(Seq<char>, usize, NodeType, Seq<char>)>::empty(),
    {
        let r = PathTracker {
            paths: Vec::new(),
            max_depth: 0,
            collect_examples,
            log: Ghost(Seq::empty()),
        };
        assert(r.path_names() =~= Seq::<Seq<char>>::empty());
        r
    }

    /// The type reported for a set of observed types.
    pub fn determine_node_type(types_seen: &Vec<NodeType>) -> (r: NodeType)
        ensures
            r == node_type_of(types_seen@),
    {
        if types_seen.len() == 1 {
            types_seen[0]
        } else {
            NodeType::Mixed
        }
    }

    /// The parent of a dotted path.
    pub fn get_parent_path(path: &str) -> (r: String)
        ensures
            r@ == parent_path(path@),
    {
        let cs = chars_of(path);
        if cs.len() == 1 && cs[0] == '$' {
            proof {
                reveal_strlit("$");
                assert(path@ =~= "$"@);
            }
            return String::from_str("$");
        }
        let mut i: usize = cs.len();
        while i > 0 && cs[i - 1] != '.'
            invariant
                i <= cs@.len(),
                cs@ == path@,
                forall|j: int| i <= j < cs@.len() ==> cs@[j] != '.',
            decreases i,
        {
            i = i - 1;
        }
        proof {
            reveal_strlit("$");
        }
        if i == 0 {
            proof {
                assert(!exists|j: int| 0 <= j < path@.len() && path@[j] == '.');
                if path@ == "$"@ {
                    assert(cs@.len() == 1);
                }
            }
            return String::from_str("$");
        }
        let k = i - 1;
        proof {
            assert(path@ != "$"@) by {
                if path@ == "$"@ {
                    assert(cs@.len() == 1);
                }
            }
            let c = choose|c: int|
                0 <= c < path@.len() && path@[c] == '.' && forall|j: int|
                    c < j < path@.len() ==> path@[j] != '.';
            assert(path@[k as int] == '.');
            if c < k {
                assert(path@[k as int] != '.');
            } else if c > k {
                assert(path@[c] != '.');
            }
        }
        let mut out: Vec<char> = Vec::new();
        let mut m: usize = 0;
        while m < k
            invariant
                m <= k < cs@.len(),
                out@ == cs@.take(m as int),
            decreases k - m,
        {
            out.push(cs[m]);
            assert(cs@.take(m + 1) == cs@.take(m as int).push(cs@[m as int]));
            m = m + 1;
        }
        string_of(out.as_slice())
    }
}

impl PathTracker {
    fn find_path(&self, path: &String) -> (r: Option<usize>)
        ensures
            r matches Some(i) ==> i < self.paths@.len() && self.path_names()[i as int] == path@,
            r is None ==> !self.path_names().contains(path@),
    {
        let mut i: usize = 0;
        while i < self.paths.len()
            invariant
                i <= self.paths@.len(),
                forall|k: int| 0 <= k < i ==> self.path_names()[k] != path@,
            decreases self.paths@.len() - i,
        {
            if self.paths[i].path == *path {
                return Some(i);
            }
            i = i + 1;
        }
        None
    }

    /// Records `value` at `path` (at nesting `depth`) and, for an object, each member
    /// under `path.key`. Arrays are recorded but not entered.
    pub fn track_value(&mut self, path: &String, value: &JsonValue, depth: usize)
        requires
            old(self).wf(),
        ensures
            final(self).wf(),
            final(self).paths@.len() >= old(self).paths@.len(),
            final(self).path_names().take(old(self).paths@.len() as int) == old(self).path_names(),
            final(self).path_names().contains(path@),
            final(self).max_depth >= old(self).max_depth,
            final(self).max_depth >= depth,
            final(self).collect_examples == old(self).collect_examples,
            forall|j: int|
                0 <= j < old(self).paths@.len() && old(self).paths@[j].path@.len() < path@.len()
                    ==> #[trigger] final(self).paths@[j] == old(self).paths@[j],
            exists|k: int|
                0 <= k < final(self).paths@.len() && #[trigger] final(self).paths@[k].path@ == path@
                    && final(self).paths@[k].types_seen@.contains(node_type_for(*value))
                    && final(self).paths@[k].count == (if k < old(self).paths@.len() {
                    bump(old(self).paths@[k].count)
                } else {
                    1
                }),
            value is Object ==> forall|m: int|
                0 <= m < value->Object_0@.len() ==> final(self).path_names().contains(
                    path@ + "."@ + (#[trigger] value->Object_0@[m]).0@,
                ),
            final(self).log@ == old(self).log@ + visits(*value, path@, depth),
        decreases value,
    {
        if depth > self.max_depth {
            self.max_depth = depth;
        }
        let idx = match self.find_path(path) {
            Some(i) => {
                assert(self.path_names().take(self.paths@.len() as int) =~= self.path_names());
                i
            },
            None => {
                let ghost before = self.path_names();
                self.paths.push(
                    PathInfo {
                        path: path.clone(),
                        count: 0,
                        types_seen: Vec::new(),
                        examples: Vec::new(),
                        depth,
                    },
                );
                proof {
                    assert(self.path_names() =~= before.push(path@));
                    assert(self.path_names().take(before.len() as int) =~= before);
                    assert forall|a: int, b: int|
                        0 <= a < b < self.path_names().len() implies self.path_names()[a]
                        != self.path_names()[b] by {
                        if b == before.len() {
                            assert(before[a] == self.path_names()[a]);
                        }
                    }
                }
                self.paths.len() - 1
            },
        };
        let ty = match value {
            JsonValue::Object(..) => NodeType::Object,
            JsonValue::Array(..) => NodeType::Array,
            JsonValue::Text(..) => NodeType::String,
            JsonValue::Number(..) => NodeType::Number,
            JsonValue::Bool(..) => NodeType::Boolean,
            JsonValue::Null => NodeType::Null,
        };
        let mut types = self.paths[idx].types_seen.clone();
        let mut seen = false;
        let mut t: usize = 0;
        while t < types.len()
            invariant
                t <= types@.len(),
                seen ==> types@.len() >= 1,
                seen == (exists|k: int| 0 <= k < t && types@[k] == ty),
            decreases types@.len() - t,
        {
            if types[t] == ty {
                seen = true;
                assert(types@[t as int] == ty);
            }
            t = t + 1;
        }
        let ghost types0 = types@;
        assert(seen == types0.contains(ty));
        if !seen {
            types.push(ty);
            assert(types@[types@.len() - 1] == ty);
        }
        assert(ty == node_type_for(*value));
        assert(types@.contains(ty));
        let mut examples = self.paths[idx].examples.clone();
        let ghost ex0 = examples.deep_view();
        assert(ex0 == self.paths@[idx as int].examples.deep_view());
        if self.collect_examples && examples.len() < 3 {
            let example = match value {
                JsonValue::Text(s) => s.clone(),
                JsonValue::Number(n) => n.clone(),
                JsonValue::Bool(b) => String::from_str(if *b { "true" } else { "false" }),
                _ => String::new(),
            };
            proof {
                reveal_strlit("true");
                reveal_strlit("false");
            }
            assert(example@ == example_text(*value));
            if !example.as_str().is_empty() {
                examples.push(example);
                assert(examples.deep_view() =~= ex0.push(example_text(*value)));
            }
        }
        let ghost ex1 = examples.deep_view();
        let count = self.paths[idx].count;
        let info = PathInfo {
            path: self.paths[idx].path.clone(),
            count: if count < usize::MAX { count + 1 } else { count },
            types_seen: types,
            examples,
            depth: self.paths[idx].depth,
        };
        let ghost names1 = self.path_names();
        let ghost old_paths = self.paths@;
        assert(names1[idx as int] == path@);
        assert(idx < old(self).paths@.len() ==> count == old(self).paths@[idx as int].count);
        assert(idx >= old(self).paths@.len() ==> count == 0);
        self.paths.set(idx, info);
        let ghost entry = self.paths@[idx as int];
        proof {
            assert(self.path_names()[idx as int] == path@);
            assert(self.path_names() =~= names1);
            assert forall|i: int| 0 <= i < self.paths@.len() implies #[trigger] self.paths@[i].types_seen@.len() >= 1 by {
                if i != idx {
                    assert(self.paths@[i] == old_paths[i]);
                }
            }
        }
        let ghost old_log = self.log@;
        proof {
            let x = (path@, depth, node_type_for(*value), example_text(*value));
            let l2 = old_log.push(x);
            assert(l2.drop_last() == old_log);
            assert(l2.last() == x);
            if !old(self).path_names().contains(path@) {
                lemma_unseen_never_met(old_log, path@);
            } else {
                let w = choose|w: int| 0 <= w < old(self).path_names().len() && old(self).path_names()[w] == path@;
                assert(w == idx) by {
                    assert(self.path_names()[w] == names1[w]);
                }
            }
        }
        self.log = Ghost(old_log.push((path@, depth, node_type_for(*value), example_text(*value))));
        proof {
            let l2 = self.log@;
            assert(l2.drop_last() == old_log);
            if old(self).path_names().contains(path@) {
                assert(seen_paths(l2) == seen_paths(old_log));
                assert(self.path_names() =~= old(self).path_names());
            } else {
                assert(seen_paths(l2) == seen_paths(old_log).push(path@));
                assert(self.path_names() =~= old(self).path_names().push(path@));
            }
            assert forall|i: int| 0 <= i < self.paths@.len() implies #[trigger] self.paths@[i].examples.deep_view()
                == examples_met(self.log@, self.paths@[i].path@, self.collect_examples) by {
                if i != idx {
                    assert(self.paths@[i] == old_paths[i]);
                    assert(old_paths[i] == old(self).paths@[i]);
                    assert(self.path_names()[i] != self.path_names()[idx as int]);
                } else {
                    assert(ex0 == examples_met(old_log, path@, self.collect_examples));
                    assert(self.paths@[i].examples.deep_view() == ex1);
                    assert(l2.last().3 == example_text(*value));
                }
            }
            assert forall|i: int| 0 <= i < self.paths@.len() implies #[trigger] self.paths@[i].types_seen@
                == types_met(self.log@, self.paths@[i].path@) by {
                if i != idx {
                    assert(self.paths@[i] == old_paths[i]);
                    assert(old_paths[i] == old(self).paths@[i]);
                    assert(self.path_names()[i] != self.path_names()[idx as int]);
                }
            }
            assert forall|i: int| 0 <= i < self.paths@.len() implies #[trigger] self.paths@[i].count
                == times_met(self.log@, self.paths@[i].path@) by {
                if i != idx {
                    assert(self.paths@[i] == old_paths[i]);
                    assert(old_paths[i] == old(self).paths@[i]);
                    assert(self.path_names()[i] != self.path_names()[idx as int]);
                }
            }
        }
        match value {
            JsonValue::Object(entries, _) => {
                let next = if depth < usize::MAX { depth + 1 } else { depth };
                let mut i: usize = 0;
                assert(member_visits(*value, path@, depth, 0) =~= Seq::<(Seq<char>, usize, NodeType, Seq<char>)>::empty());
                assert(self.log@ =~= old(self).log@ + seq![(path@, depth, node_type_for(*value), example_text(*value))] + member_visits(
                    *value,
                    path@,
                    depth,
                    0,
                ));
                while i < entries.len()
                    invariant
                        self.wf(),
                        self.paths@.len() >= old(self).paths@.len(),
                        self.path_names().take(old(self).paths@.len() as int) == old(self).path_names(),
                        self.path_names().contains(path@),
                        self.max_depth >= old(self).max_depth,
                        self.max_depth >= depth,
                        self.collect_examples == old(self).collect_examples,
                        *value is Object,
                        value->Object_0 == *entries,
                        i <= entries@.len(),
                        next == bump(depth),
                        self.log@ == old(self).log@ + seq![(path@, depth, node_type_for(*value), example_text(*value))] + member_visits(
                            *value,
                            path@,
                            depth,
                            i as nat,
                        ),
                        idx < self.paths@.len(),
                        self.paths@[idx as int] == entry,
                        entry.path@ == path@,
                        forall|m: int|
                            0 <= m < i ==> self.path_names().contains(
                                path@ + "."@ + (#[trigger] entries@[m]).0@,
                            ),
                        forall|j: int|
                            0 <= j < old(self).paths@.len() && old(self).paths@[j].path@.len()
                                < path@.len() ==> #[trigger] self.paths@[j] == old(self).paths@[j],
                    decreases entries@.len() - i,
                {
                    let key = &entries[i].0;
                    let child = &entries[i].1;
                    let mut child_path = path.clone();
                    child_path.append(".");
                    child_path.append(key.as_str());
                    let ghost n0 = self.path_names();
                    let ghost len0 = self.paths@.len();
                    let ghost p0 = self.paths@;
                    let ghost log0 = self.log@;
                    proof {
                        reveal_strlit(".");
                    }
                    assert(child_path@.len() > path@.len());
                    proof {
                        vstd::std_specs::vec::axiom_vec_index_decreases(*entries, i as int);
                        assert(*entries == value->Object_0);
                        assert(decreases_to!(*value => value->Object_0));
                        assert(decreases_to!(entries[i as int] => entries[i as int].1));
                    }
                    self.track_value(&child_path, child, next);
                    proof {
                        assert(self.path_names().take(old(self).paths@.len() as int)
                            =~= n0.take(old(self).paths@.len() as int));
                        let j = choose|j: int| 0 <= j < n0.len() && n0[j] == path@;
                        assert(self.path_names()[j] == n0[j]) by {
                            assert(self.path_names().take(len0 as int)[j] == n0[j]);
                        }
                        assert(p0[idx as int].path@.len() < child_path@.len());
                        reveal_strlit(".");
                        assert(child_path@ == member_path(path@, entries@[i as int].0@));
                        assert(member_visits(*value, path@, depth, (i + 1) as nat)
                            == member_visits(*value, path@, depth, i as nat) + visits(
                            entries@[i as int].1,
                            member_path(path@, entries@[i as int].0@),
                            bump(depth),
                        ));
                        assert(self.log@ =~= old(self).log@ + seq![(path@, depth, node_type_for(*value), example_text(*value))] + member_visits(
                            *value,
                            path@,
                            depth,
                            (i + 1) as nat,
                        ));
                        assert forall|m: int| 0 <= m < i + 1 implies self.path_names().contains(
                            path@ + "."@ + (#[trigger] entries@[m]).0@,
                        ) by {
                            if m < i {
                                let w = choose|w: int|
                                    0 <= w < n0.len() && n0[w] == path@ + "."@ + entries@[m].0@;
                                assert(self.path_names().take(len0 as int)[w] == n0[w]);
                                assert(self.path_names()[w] == n0[w]);
                            } else {
                                assert(child_path@ == path@ + "."@ + entries@[m].0@);
                            }
                        }
                        assert(self.paths@[idx as int] == p0[idx as int]);
                        assert forall|j: int|
                            0 <= j < old(self).paths@.len() && old(self).paths@[j].path@.len()
                                < path@.len() implies #[trigger] self.paths@[j] == old(
                            self).paths@[j] by {
                            assert(p0[j] == old(self).paths@[j]);
                        }
                    }
                    i = i + 1;
                }
            },
            _ => {},
        }
        proof {
            assert(self.paths@[idx as int].path@ == path@);
            if value is Object {
                assert(visits(*value, path@, depth) == seq![(path@, depth, node_type_for(*value), example_text(*value))] + member_visits(
                    *value,
                    path@,
                    depth,
                    value->Object_0@.len(),
                ));
            } else {
                assert(visits(*value, path@, depth) =~= seq![(path@, depth, node_type_for(*value), example_text(*value))]);
            }
            assert(self.log@ =~= old(self).log@ + visits(*value, path@, depth));
        }
    }
}

impl PathTracker {
    /// Fills `node` from the facts of its path and attaches, in discovery order, a child
    /// for each path whose parent is the node's path; `levels` bounds the nesting built.
    fn build_node(&self, node: &mut TreeNode, parents: &Vec<String>, levels: usize)
        requires
            self.wf(),
            parents@.len() == self.paths@.len(),
            old(node).children@.len() == 0,
            old(node).child_count == 0,
            old(node).examples@.len() <= 3,
            old(node).count == 0,
            forall|k: int|
                0 <= k < parents@.len() ==> #[trigger] parents@[k]@ == parent_path(
                    self.paths@[k].path@,
                ),
        ensures
            final(node).path@ == old(node).path@,
            tree_ok(*final(node)),
            tree_grouped(*final(node), self.path_names(), levels as nat),
            tree_counts(*final(node), self.log@, self.collect_examples),
            forall|i: int|
                0 <= i < self.paths@.len() && self.paths@[i].path@ == old(node).path@ ==> (
                #[trigger] self.paths@[i]).count == final(node).count && final(node).data_type
                    == node_type_of(self.paths@[i].types_seen@) && final(node).examples.deep_view()
                    == self.paths@[i].examples.deep_view(),
        decreases levels,
    {
        match self.find_path(&node.path) {
            Some(i) => {
                node.count = self.paths[i].count;
                assert(self.paths@[i as int].path@ == node.path@);
                node.data_type = Self::determine_node_type(&self.paths[i].types_seen);
                node.examples = self.paths[i].examples.clone();
                proof {
                    assert forall|j: int|
                        0 <= j < self.paths@.len() && self.paths@[j].path@ == old(node).path@
                            implies j == i by {
                        assert(self.path_names()[j] == self.path_names()[i as int]);
                    }
                }
            },
            None => {
                proof {
                    assert forall|j: int|
                        0 <= j < self.paths@.len() implies self.paths@[j].path@ != old(node).path@ by {
                        assert(self.path_names()[j] == self.paths@[j].path@);
                    }
                    lemma_unseen_never_met(self.log@, node.path@);
                }
            },
        }
        let ghost filled = *node;
        if levels == 0 {
            return;
        }
        assert(self.paths@.len() >= 0);
        let root = String::from_str("$");
        let mut k: usize = 0;
        while k < self.paths.len()
            invariant
                self.wf(),
                parents@.len() == self.paths@.len(),
                node.path@ == old(node).path@,
                node.count == filled.count,
                node.data_type == filled.data_type,
                node.examples@ == filled.examples@,
                filled.examples@.len() <= 3,
                node.child_count == node.children@.len(),
                forall|c: int| 0 <= c < node.children@.len() ==> tree_ok(#[trigger] node.children@[c]),
                forall|c: int|
                    0 <= c < node.children@.len() ==> tree_counts(#[trigger] node.children@[c], self.log@, self.collect_examples),
                filled.count == times_met(self.log@, old(node).path@),
                k <= self.paths@.len(),
                levels > 0,
                root@ == "$"@,
                forall|j: int|
                    0 <= j < parents@.len() ==> #[trigger] parents@[j]@ == parent_path(
                        self.paths@[j].path@,
                    ),
                node.children@.map_values(|c: TreeNode| c.path@) == child_paths(
                    self.path_names().take(k as int),
                    node.path@,
                ),
                node.children@.len() <= k,
                forall|c: int|
                    0 <= c < node.children@.len() ==> tree_grouped(
                        #[trigger] node.children@[c],
                        self.path_names(),
                        (levels - 1) as nat,
                    ),
            decreases self.paths@.len() - k,
        {
            let p = &self.paths[k];
            let ghost kids0 = node.children@;
            proof {
                let pred = child_of(node.path@);
                let nk = self.path_names().take(k as int);
                assert(self.path_names().take(k + 1) == nk.push(self.path_names()[k as int]));
                nk.lemma_filter_push(self.path_names()[k as int], pred);
                assert(self.path_names()[k as int] == p.path@);
            }
            if p.path != root && parents[k] == node.path && node.child_count < usize::MAX {
                let mut child = TreeNode::new(
                    p.path.clone(),
                    p.depth,
                    Self::determine_node_type(&p.types_seen),
                );
                self.build_node(&mut child, parents, levels - 1);
                let ghost before = node.children@;
                node.add_child(child);
                proof {
                    assert forall|c: int| 0 <= c < node.children@.len() implies tree_ok(
                        #[trigger] node.children@[c],
                    ) && tree_counts(node.children@[c], self.log@, self.collect_examples) && tree_grouped(
                        node.children@[c],
                        self.path_names(),
                        (levels - 1) as nat,
                    ) by {
                        if c < before.len() {
                            assert(node.children@[c] == before[c]);
                        }
                    }
                    assert(node.children@.map_values(|c: TreeNode| c.path@) =~= kids0.map_values(
                        |c: TreeNode| c.path@,
                    ).push(p.path@));
                }
            }
            k = k + 1;
        }
        assert(self.path_names().take(self.paths@.len() as int) == self.path_names());
    }

    /// The tree of all paths under the root `$`.
    pub fn build_tree(&self) -> (r: TreeNode)
        requires
            self.wf(),
        ensures
            r.path@ == "$"@,
            tree_ok(r),
            tree_counts(r, self.log@, self.collect_examples),
            tree_grouped(r, self.path_names(), self.paths@.len() as nat),
    {
        let mut parents: Vec<String> = Vec::new();
        let mut k: usize = 0;
        while k < self.paths.len()
            invariant
                k <= self.paths@.len(),
                parents@.len() == k,
                forall|j: int|
                    0 <= j < k ==> #[trigger] parents@[j]@ == parent_path(self.paths@[j].path@),
            decreases self.paths@.len() - k,
        {
            parents.push(Self::get_parent_path(self.paths[k].path.as_str()));
            k = k + 1;
        }
        let mut root = TreeNode::new(String::from_str("$"), 0, NodeType::Object);
        self.build_node(&mut root, &parents, self.paths.len());
        root
    }
}

/// Whether a scan of `data` fails: the start announces no known format, or an array
/// source is not one JSON array.
pub open spec fn structure_scan_fails(data: Seq<u8>) -> bool {
    let text = lossy_of(data);
    detected_format(text) == JsonFormat::Unknown || (detected_format(text) == JsonFormat::JsonArray
        && !(json_of(text) matches Some(JsonValue::Array(..))))
}

/// End of the line that starts at `i`: the next newline, or the end of the text.
pub open spec fn line_end(s: Seq<char>, i: int) -> int
    decreases s.len() - i,
{
    if 0 <= i < s.len() && s[i] != '\n' {
        line_end(s, i + 1)
    } else {
        i
    }
}

/// The lines of a text from position `pos` on, the last one possibly unterminated.
pub open spec fn text_lines(s: Seq<char>, pos: int) -> Seq<Seq<char>>
    decreases s.len() - pos,
{
    if pos < 0 || pos >= s.len() {
        Seq::empty()
    } else {
        let e = line_end(s, pos);
        if pos <= e < s.len() {
            seq![s.subrange(pos, e)] + text_lines(s, e + 1)
        } else {
            seq![s.subrange(pos, s.len() as int)]
        }
    }
}

/// The records of a text's lines: each line that is not blank once trimmed and parses
/// as JSON, in order.
pub open spec fn line_records(ls: Seq<Seq<char>>) -> Seq<JsonValue>
    decreases ls.len(),
{
    if ls.len() == 0 {
        Seq::empty()
    } else {
        let rest = line_records(ls.drop_first());
        if trimmed(ls[0]).len() > 0 && json_of(trimmed(ls[0])) is Some {
            seq![json_of(trimmed(ls[0]))->Some_0] + rest
        } else {
            rest
        }
    }
}

/// The records a scan of `data` takes: the items of an array source, or the records of
/// a line-delimited one, at most `cap` of them.
pub open spec fn sampled_records(data: Seq<u8>, cap: usize) -> Seq<JsonValue> {
    let text = lossy_of(data);
    let all = if detected_format(text) == JsonFormat::JsonArray {
        match json_of(text) {
            Some(JsonValue::Array(items, _)) => items@,
            _ => Seq::empty(),
        }
    } else if detected_format(text) == JsonFormat::JsonLines {
        line_records(text_lines(text, 0))
    } else {
        Seq::empty()
    };
    if all.len() <= cap {
        all
    } else {
        all.take(cap as int)
    }
}

/// The paths among `names` whose parent is `parent`, in their order; the root has no
/// parent.
pub open spec fn child_paths(names: Seq<Seq<char>>, parent: Seq<char>) -> Seq<Seq<char>> {
    names.filter(child_of(parent))
}

/// Whether a path is grouped under `parent`.
pub open spec fn child_of(parent: Seq<char>) -> spec_fn(Seq<char>) -> bool {
    |p: Seq<char>| p != "$"@ && parent_path(p) == parent
}

/// Down to `levels` levels, each node's children are the paths grouped under it, in
/// the order of `names`.
pub open spec fn tree_grouped(n: TreeNode, names: Seq<Seq<char>>, levels: nat) -> bool
    decreases n,
{
    levels > 0 ==> {
        &&& n.children@.map_values(|c: TreeNode| c.path@) == child_paths(names, n.path@)
        &&& forall|i: int|
            0 <= i < n.children@.len() ==> tree_grouped(
                #[trigger] n.children@[i],
                names,
                (levels - 1) as nat,
            )
    }
}

/// Every node counts the times its path was met in `log`; a path met has the type of
/// the types met there and its first three examples.
pub open spec fn tree_counts(
    n: TreeNode,
    log: Seq<(Seq<char>, usize, NodeType, Seq<char>)>,
    keep: bool,
) -> bool
    decreases n,
{
    &&& n.count == times_met(log, n.path@)
    &&& seen_paths(log).contains(n.path@) ==> n.data_type == node_type_of(types_met(log, n.path@))
    &&& seen_paths(log).contains(n.path@) ==> n.examples.deep_view() == examples_met(
        log,
        n.path@,
        keep,
    )
    &&& forall|i: int| 0 <= i < n.children@.len() ==> tree_counts(#[trigger] n.children@[i], log, keep)
}

/// Whether a scan keeps examples.
pub open spec fn keeps_examples(config: Option<StructureConfig>) -> bool {
    match config {
        Some(c) => c.collect_examples,
        None => true,
    }
}

/// Records a scan looks at.
pub open spec fn sample_cap(config: Option<StructureConfig>) -> usize {
    match config {
        Some(c) => c.max_sample_rows,
        None => 1000,
    }
}

/// Items of `data` read as one JSON array; zero when it is none.
pub open spec fn array_item_count(data: Seq<u8>) -> int {
    match json_of(lossy_of(data)) {
        Some(JsonValue::Array(items, _)) => items@.len() as int,
        _ => 0,
    }
}

/// Scans a JSON array or line-delimited source (at most `max_sample_rows` records) for
/// its paths, their types, counts and examples, and recommends a profiling mode. Lines
/// that do not parse are skipped.
pub fn analyze_json_structure(data: &[u8], config: Option<StructureConfig>) -> (r: Result<
    StructureAnalysis,
    String,
>)
    ensures
        structure_scan_fails(data@) <==> r is Err,
        r matches Ok(a) ==> ({
            let recs = sampled_records(data@, sample_cap(config));
            let log = record_visits(recs);
            &&& a.rows_sampled == recs.len()
            &&& a.max_depth == deepest(log)
            &&& a.total_paths == seen_paths(log).len()
            &&& a.recommended_mode == mode_for(a.max_depth, a.total_paths)
            &&& a.tree.path@ == "$"@
            &&& tree_ok(a.tree)
            &&& tree_counts(a.tree, log, keeps_examples(config))
            &&& tree_grouped(a.tree, seen_paths(log), seen_paths(log).len())
        }),
{
    let ghost cap = sample_cap(config);
    let ghost keep = keeps_examples(config);
    let config = match config {
        Some(c) => c,
        None => StructureConfig::default(),
    };
    assert(cap == config.max_sample_rows);
    assert(keep == config.collect_examples);
    let text = utf8_lossy(data);
    let format = JsonParser::auto_detect_format(text.as_str());
    let mut tracker = PathTracker::new(config.collect_examples);
    let mut rows: usize = 0;
    let root = String::from_str("$");
    let ghost taken: Seq<JsonValue> = Seq::empty();
    match format {
        JsonFormat::JsonArray => {
            match parse_json(text.as_str()) {
                Some(JsonValue::Array(items, _)) => {
                    let mut i: usize = 0;
                    assert(record_visits(items@.take(0)) =~= Seq::<(Seq<char>, usize, NodeType, Seq<char>)>::empty());
                    while i < items.len() && rows < config.max_sample_rows
                        invariant
                            tracker.wf(),
                            rows == i,
                            i <= items@.len(),
                            rows <= config.max_sample_rows,
                            tracker.log@ == record_visits(items@.take(i as int)),
                            root@ == "$"@,
                            tracker.collect_examples == keep,
                        decreases items@.len() - i,
                    {
                        tracker.track_value(&root, &items[i], 0);
                        proof {
                            assert(items@.take(i + 1).drop_last() == items@.take(i as int));
                            assert(items@.take(i + 1).last() == items@[i as int]);
                        }
                        rows = rows + 1;
                        i = i + 1;
                    }
                    proof {
                        taken = items@.take(i as int);
                        if items@.len() <= cap {
                            assert(items@.take(i as int) =~= items@);
                        }
                    }
                },
                _ => {
                    return Err(String::from_str("Invalid JSON array format"));
                },
            }
        },
        JsonFormat::JsonLines => {
            let cs = chars_of(text.as_str());
            let n = cs.len();
            let mut pos: usize = 0;
            let ghost all = line_records(text_lines(cs@, 0));
            assert(taken + line_records(text_lines(cs@, 0)) =~= all);
            while pos < n && rows < config.max_sample_rows
                invariant
                    tracker.wf(),
                    pos <= n,
                    n == cs@.len(),
                    rows <= config.max_sample_rows,
                    all == line_records(text_lines(cs@, 0)),
                    all == taken + line_records(text_lines(cs@, pos as int)),
                    rows == taken.len(),
                    tracker.log@ == record_visits(taken),
                    root@ == "$"@,
                    tracker.collect_examples == keep,
                decreases n - pos,
            {
                let mut end = pos;
                while end < n && cs[end] != '\n'
                    invariant
                        pos <= end <= n,
                        n == cs@.len(),
                        line_end(cs@, pos as int) == line_end(cs@, end as int),
                    decreases n - end,
                {
                    end = end + 1;
                }
                assert(line_end(cs@, end as int) == end);
                let mut line: Vec<char> = Vec::new();
                let mut m = pos;
                while m < end
                    invariant
                        pos <= m <= end <= n,
                        n == cs@.len(),
                        line@ == cs@.subrange(pos as int, m as int),
                    decreases end - m,
                {
                    line.push(cs[m]);
                    assert(line@ == cs@.subrange(pos as int, m + 1));
                    m = m + 1;
                }
                let ghost next_pos: int = if end < n { end + 1 } else { n as int };
                proof {
                    let ls = text_lines(cs@, pos as int);
                    if end < n {
                        assert(ls == seq![line@] + text_lines(cs@, end + 1));
                        assert(ls.drop_first() =~= text_lines(cs@, end + 1));
                    } else {
                        assert(ls == seq![line@]);
                        assert(ls.drop_first() =~= text_lines(cs@, n as int));
                    }
                    assert(ls[0] == line@);
                    assert(ls.drop_first() == text_lines(cs@, next_pos));
                }
                let t = trim_chars(line.as_slice());
                if t.len() > 0 {
                    let s = string_of(t.as_slice());
                    match parse_json(s.as_str()) {
                        Some(v) => {
                            tracker.track_value(&root, &v, 0);
                            proof {
                                let t2 = taken.push(v);
                                assert(t2.drop_last() == taken);
                                assert(t2 + line_records(text_lines(cs@, next_pos)) =~= taken
                                    + line_records(text_lines(cs@, pos as int)));
                                taken = t2;
                            }
                            rows = rows + 1;
                        },
                        None => {},
                    }
                }
                pos = if end < n { end + 1 } else { n };
            }
            proof {
                if pos >= n {
                    assert(text_lines(cs@, pos as int) =~= Seq::<Seq<char>>::empty());
                    assert(all =~= taken);
                } else {
                    assert(all.take(cap as int) =~= taken);
                }
            }
        },
        JsonFormat::Unknown => {
            return Err(String::from_str("Unable to detect JSON format"));
        },
    }
    assert(taken == sampled_records(data@, cap));
    let mut analysis = StructureAnalysis::new();
    analysis.tree = tracker.build_tree();
    analysis.total_paths = tracker.paths.len();
    analysis.max_depth = tracker.max_depth;
    analysis.rows_sampled = rows;
    analysis.determine_mode();
    Ok(analysis)
}

} // verus!
