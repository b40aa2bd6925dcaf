//! Buffer bookkeeping for processing pipelines.
//!
//! A pipeline is a list of processing nodes. Buffer 0 holds the source image
//! and buffer `j + 1` the images that node `j` produced. Each node reads
//! either the buffers its `select` list names (negative entries count back
//! from the node), or, for `concat` and `alignment`, every buffer since the
//! previous such merger, or images loaded from its `buffer_path`, or else
//! the buffer just before it. Every buffer is counted before anything runs
//! so that its last reader moves it instead of copying it, and a buffer that
//! nobody reads is dropped at once.
use vstd::prelude::*;
use crate::chars::{spec_decimal, push_char, u64_to_decimal};
use crate::image::{Image, ImageView};

verus! {

/// Where a node reads its input from when it names a `buffer_path`.
pub enum BufferPath {
    /// The image files to load, in order.
    Paths(Vec<String>),
    /// The field is neither a path nor a list of paths.
    Invalid,
}

/// What the planner reads from one pipeline node.
pub struct NodeRoute {
    /// The node's `processor_name`, or empty when it has none.
    pub processor: String,
    /// The node's `select` entries when the field is present: each entry's
    /// integer value, or `None` for an entry that is not an integer.
    pub select: Option<Vec<Option<i64>>>,
    /// The node's `buffer_path` when the field is present.
    pub buffer_path: Option<BufferPath>,
}

/// The plain content of a route.
pub struct RouteView {
    pub processor: Seq<char>,
    pub select: Option<Seq<Option<i64>>>,
    pub has_buffer_path: bool,
}

impl NodeRoute {
    pub open spec fn view(&self) -> RouteView {
        RouteView {
            processor: self.processor@,
            select: match self.select {
                Some(v) => Some(v@),
                None => None,
            },
            has_buffer_path: self.buffer_path is Some,
        }
    }
}

pub open spec fn route_views(routes: Seq<NodeRoute>) -> Seq<RouteView> {
    routes.map_values(|r: NodeRoute| r.view())
}

/// Why planning refused a pipeline.
#[derive(PartialEq, Eq, Clone, Copy, Debug, Structural)]
pub enum PlanError {
    /// The pipeline has no node.
    NoNodes,
    /// A `select` entry is not an integer.
    NotInteger,
    /// A `select` entry names a buffer that does not exist yet.
    BadIndex(i64),
}

/// `concat` and `alignment` merge everything since the previous merger.
pub open spec fn is_merger(name: Seq<char>) -> bool {
    name == "concat"@ || name == "alignment"@
}

/// The buffer a `select` entry names for node `index`.
pub open spec fn resolve(raw: int, index: int) -> int {
    if raw < 0 {
        index + 1 + raw
    } else {
        raw
    }
}

/// The buffers a `select` list names, or the first entry it refuses.
pub open spec fn spec_select_plan(sel: Seq<Option<i64>>, index: int) -> Result<Seq<usize>, PlanError>
    decreases sel.len(),
{
    if sel.len() == 0 {
        Ok(Seq::empty())
    } else {
        match sel[0] {
            None => Err(PlanError::NotInteger),
            Some(raw) => {
                let r = resolve(raw as int, index);
                if r < 0 || r > index {
                    Err(PlanError::BadIndex(raw))
                } else {
                    match spec_select_plan(sel.drop_first(), index) {
                        Ok(rest) => Ok(seq![r as usize] + rest),
                        Err(e) => Err(e),
                    }
                }
            },
        }
    }
}

/// The buffers `last_merger + 1 ..= index`.
pub open spec fn merger_range(last_merger: int, index: int) -> Seq<usize> {
    Seq::new((index - last_merger) as nat, |k: int| (last_merger + 1 + k) as usize)
}

/// The plan of node `index` and the last merger after it: the buffers it
/// reads, or `None` when it loads its input from `buffer_path`.
pub open spec fn spec_node_plan(r: RouteView, index: int, last_merger: int) -> Result<
    (Option<Seq<usize>>, int),
    PlanError,
> {
    match r.select {
        Some(sel) => match spec_select_plan(sel, index) {
            Ok(ids) => Ok((Some(ids), last_merger)),
            Err(e) => Err(e),
        },
        None => if is_merger(r.processor) {
            Ok((Some(merger_range(last_merger, index)), index))
        } else if r.has_buffer_path {
            Ok((None, last_merger))
        } else {
            Ok((Some(seq![index as usize]), last_merger))
        },
    }
}

/// The plans of the first `n` nodes and the last merger among them.
pub open spec fn spec_plans_upto(routes: Seq<RouteView>, n: nat) -> Result<
    (Seq<Option<Seq<usize>>>, int),
    PlanError,
>
    decreases n,
{
    if n == 0 {
        Ok((Seq::empty(), -1))
    } else {
        match spec_plans_upto(routes, (n - 1) as nat) {
            Err(e) => Err(e),
            Ok((ps, lm)) => match spec_node_plan(routes[n - 1], n - 1, lm) {
                Err(e) => Err(e),
                Ok((p, lm2)) => Ok((ps.push(p), lm2)),
            },
        }
    }
}

/// The plan of every node of a pipeline, or why it is refused.
pub open spec fn spec_plans(routes: Seq<RouteView>) -> Result<Seq<Option<Seq<usize>>>, PlanError> {
    if routes.len() == 0 {
        Err(PlanError::NoNodes)
    } else {
        match spec_plans_upto(routes, routes.len()) {
            Ok((ps, _)) => Ok(ps),
            Err(e) => Err(e),
        }
    }
}

/// A node with no `select`, no `buffer_path` and no merging processor.
pub open spec fn plain_route(r: RouteView) -> bool {
    r.select is None && !r.has_buffer_path && !is_merger(r.processor)
}

/// Each of `n` nodes reading the one buffer with its own index.
pub open spec fn chain_plans(n: nat) -> Seq<Option<Seq<usize>>> {
    Seq::new(n, |i: int| Some(seq![i as usize]))
}

proof fn lemma_chain_plans(routes: Seq<RouteView>, n: nat)
    requires
        n <= routes.len(),
        forall|i: int| 0 <= i < routes.len() ==> plain_route(#[trigger] routes[i]),
    ensures
        spec_plans_upto(routes, n) == Ok::<(Seq<Option<Seq<usize>>>, int), PlanError>((chain_plans(n), -1)),
    decreases n,
{
    if n == 0 {
        assert(chain_plans(0) =~= Seq::<Option<Seq<usize>>>::empty());
    } else {
        lemma_chain_plans(routes, (n - 1) as nat);
        assert(plain_route(routes[n - 1]));
        assert(chain_plans((n - 1) as nat).push(Some(seq![(n - 1) as usize])) =~= chain_plans(n));
    }
}

/// A pipeline of plain nodes is a chain: node `i` is handed exactly buffer
/// `i`, the initial image for the first node and the previous node's
/// output for every later one.
pub proof fn law_plain_pipeline_is_a_chain(routes: Seq<RouteView>, outputs: Seq<Seq<ImageView>>)
    requires
        0 < routes.len() <= usize::MAX,
        forall|i: int| 0 <= i < routes.len() ==> plain_route(#[trigger] routes[i]),
    ensures
        spec_plans(routes) == Ok::<Seq<Option<Seq<usize>>>, PlanError>(chain_plans(routes.len())),
        forall|i: int| 0 <= i < routes.len() && i < outputs.len() ==> #[trigger] gather(outputs, seq![i as usize]) == outputs[i],
{
    lemma_chain_plans(routes, routes.len());
    assert forall|i: int| 0 <= i < routes.len() && i < outputs.len() implies #[trigger] gather(outputs, seq![i as usize]) == outputs[i] by {
        let ids = seq![i as usize];
        assert(ids.last() as int == i);
        assert(ids.drop_last() =~= Seq::<usize>::empty());
        assert(gather(outputs, Seq::<usize>::empty()) == Seq::<ImageView>::empty());
        assert(Seq::<ImageView>::empty() + outputs[i] =~= outputs[i]);
    }
}

/// A node that merges the buffers since the previous merger: `concat` or
/// `alignment` with no `select`.
pub open spec fn plain_merger(r: RouteView) -> bool {
    r.select is None && is_merger(r.processor)
}

/// The buffers `from ..= to`, in order.
pub open spec fn buffers_between(from: int, to: int) -> Seq<usize> {
    Seq::new((to - from + 1) as nat, |k: int| (from + k) as usize)
}

proof fn lemma_plans_prefix(routes: Seq<RouteView>, n: nat, k: nat)
    requires
        k <= n <= routes.len(),
        spec_plans_upto(routes, n) is Ok,
    ensures
        spec_plans_upto(routes, k) is Ok,
        spec_plans_upto(routes, k)->Ok_0.0 == spec_plans_upto(routes, n)->Ok_0.0.take(k as int),
        spec_plans_upto(routes, n)->Ok_0.0.len() == n,
    decreases n,
{
    if n > 0 {
        lemma_plans_prefix(routes, (n - 1) as nat, (n - 1) as nat);
        let prev = spec_plans_upto(routes, (n - 1) as nat)->Ok_0.0;
        let cur = spec_plans_upto(routes, n)->Ok_0.0;
        assert(cur == prev.push(cur.last()));
        if k < n {
            lemma_plans_prefix(routes, (n - 1) as nat, k);
            assert(cur.take(k as int) =~= prev.take(k as int));
        } else {
            assert(cur.take(k as int) =~= cur);
        }
    } else {
        assert(spec_plans_upto(routes, 0)->Ok_0.0.take(0) =~= spec_plans_upto(routes, 0)->Ok_0.0);
    }
}

proof fn lemma_last_merger(routes: Seq<RouteView>, n: nat)
    requires
        n <= routes.len(),
        spec_plans_upto(routes, n) is Ok,
    ensures
        ({
            let lm = spec_plans_upto(routes, n)->Ok_0.1;
            &&& -1 <= lm < n
            &&& lm >= 0 ==> plain_merger(routes[lm])
            &&& forall|k: int| lm < k < n ==> !plain_merger(#[trigger] routes[k])
        }),
    decreases n,
{
    if n > 0 {
        lemma_last_merger(routes, (n - 1) as nat);
    }
}

/// A merging node reads exactly the buffers after the previous merging
/// node, up to its own: after a merger at `m`, the next merger at `n`
/// reads `m + 1 ..= n`; with no earlier merger it reads `0 ..= n`. So no
/// merger reads a buffer at or before an earlier merger's index.
pub proof fn law_merger_reads_since_previous(routes: Seq<RouteView>, m: int, n: int)
    requires
        spec_plans(routes) is Ok,
        -1 <= m < n < routes.len(),
        m >= 0 ==> plain_merger(routes[m]),
        plain_merger(routes[n]),
        forall|k: int| m < k < n ==> !plain_merger(#[trigger] routes[k]),
    ensures
        spec_plans(routes)->Ok_0[n] == Some(buffers_between(m + 1, n)),
{
    let len = routes.len();
    lemma_plans_prefix(routes, len, (n + 1) as nat);
    lemma_plans_prefix(routes, (n + 1) as nat, n as nat);
    lemma_last_merger(routes, n as nat);
    let lm = spec_plans_upto(routes, n as nat)->Ok_0.1;
    if lm > m {
        assert(!plain_merger(routes[lm]));
    }
    if lm < m {
        assert(!plain_merger(routes[m]));
    }
    assert(lm == m);
    let all = spec_plans(routes)->Ok_0;
    let upto = spec_plans_upto(routes, (n + 1) as nat)->Ok_0.0;
    assert(all[n] == upto[n]);
    assert(merger_range(m, n) =~= buffers_between(m + 1, n));
}

/// How often `i` occurs in `s`.
pub open spec fn count_in(s: Seq<usize>, i: int) -> nat
    decreases s.len(),
{
    if s.len() == 0 {
        0
    } else {
        (if s[0] as int == i {
            1nat
        } else {
            0nat
        }) + count_in(s.drop_first(), i)
    }
}

/// How often the plans of nodes `from..` read buffer `i`.
pub open spec fn remaining(plans: Seq<Option<Seq<usize>>>, from: int, i: int) -> nat
    decreases plans.len() - from,
{
    if from < 0 || from >= plans.len() {
        0
    } else {
        (match plans[from] {
            Some(ids) => count_in(ids, i),
            None => 0nat,
        }) + remaining(plans, from + 1, i)
    }
}

/// The number of buffer reads all plans make together.
pub open spec fn total_reads(plans: Seq<Option<Seq<usize>>>) -> nat
    decreases plans.len(),
{
    if plans.len() == 0 {
        0
    } else {
        total_reads(plans.drop_last()) + match plans.last() {
            Some(ids) => ids.len(),
            None => 0nat,
        }
    }
}

/// The images of the named buffers, in order.
pub open spec fn gather(outputs: Seq<Seq<ImageView>>, ids: Seq<usize>) -> Seq<ImageView>
    decreases ids.len(),
{
    if ids.len() == 0 {
        Seq::empty()
    } else {
        gather(outputs, ids.drop_last()) + outputs[ids.last() as int]
    }
}

/// The views of a list of images.
pub open spec fn views(v: Seq<Image>) -> Seq<ImageView> {
    v.map_values(|i: Image| i@)
}

/// Every image is well formed.
pub open spec fn all_wf(v: Seq<Image>) -> bool {
    forall|k: int| 0 <= k < v.len() ==> (#[trigger] v[k]).wf()
}

/// The message of a refused plan.
pub open spec fn spec_plan_error_message(e: PlanError) -> Seq<char> {
    match e {
        PlanError::NoNodes => "模板没有处理节点"@,
        PlanError::NotInteger => "select 必须是整数索引"@,
        PlanError::BadIndex(raw) => "无效的缓冲区索引: "@ + spec_i64_decimal(raw as int),
    }
}

/// The decimal form of an integer, with a `-` for negative values.
pub open spec fn spec_i64_decimal(v: int) -> Seq<char> {
    if v < 0 {
        seq!['-'] + spec_decimal((-v) as nat)
    } else {
        spec_decimal(v as nat)
    }
}

/// The message for a `buffer_path` that is neither a path nor a list.
pub open spec fn spec_bad_buffer_path_message() -> Seq<char> {
    "buffer_path 必须是路径或路径数组"@
}

/// The message when the last node produced no image.
pub open spec fn spec_no_output_message() -> Seq<char> {
    "处理器没有生成图像"@
}

/// The decimal form of `v`.
pub fn i64_to_decimal(v: i64) -> (r: String)
    ensures
        r@ == spec_i64_decimal(v as int),
{
    if v < 0 {
        let magnitude: u64 = if v == i64::MIN {
            9223372036854775808u64
        } else {
            (-v) as u64
        };
        let mut r = String::new();
        push_char(&mut r, '-');
        let digits = u64_to_decimal(magnitude);
        r.append(digits.as_str());
        r
    } else {
        u64_to_decimal(v as u64)
    }
}

/// The message for a refused plan.
pub fn plan_error_message(e: PlanError) -> (r: String)
    ensures
        r@ == spec_plan_error_message(e),
{
    match e {
        PlanError::NoNodes => "模板没有处理节点".to_owned(),
        PlanError::NotInteger => "select 必须是整数索引".to_owned(),
        PlanError::BadIndex(raw) => {
            let mut r = "无效的缓冲区索引: ".to_owned();
            let digits = i64_to_decimal(raw);
            r.append(digits.as_str());
            r
        },
    }
}

proof fn lemma_select_plan_bounds(sel: Seq<Option<i64>>, index: int)
    requires
        index >= 0,
    ensures
        spec_select_plan(sel, index) matches Ok(ids) ==> ids.len() == sel.len() && forall|k: int|
            0 <= k < ids.len() ==> (#[trigger] ids[k]) as int <= index,
    decreases sel.len(),
{
    if sel.len() > 0 {
        lemma_select_plan_bounds(sel.drop_first(), index);
        if let Some(raw) = sel[0] {
            let r = resolve(raw as int, index);
            if !(r < 0 || r > index) {
                if let Ok(rest) = spec_select_plan(sel.drop_first(), index) {
                    let ids = seq![r as usize] + rest;
                    assert forall|k: int| 0 <= k < ids.len() implies (#[trigger] ids[k]) as int
                        <= index by {
                        if k > 0 {
                            assert(ids[k] == rest[k - 1]);
                        }
                    }
                }
            }
        }
    }
}

/// Plans of earlier nodes only read buffers that exist by then, and the
/// last merger is before the next node.
proof fn lemma_plans_bounds(routes: Seq<RouteView>, n: nat)
    requires
        n <= routes.len(),
        routes.len() <= usize::MAX,
    ensures
        spec_plans_upto(routes, n) matches Ok((ps, lm)) ==> ps.len() == n && -1 <= lm < n
            && forall|j: int, k: int|
            #![trigger ps[j], ps[j]->0[k]]
            0 <= j < n && ps[j] is Some && 0 <= k < ps[j]->0.len() ==> ps[j]->0[k] as int <= j,
    decreases n,
{
    if n > 0 {
        lemma_plans_bounds(routes, (n - 1) as nat);
        if let Ok((ps, lm)) = spec_plans_upto(routes, (n - 1) as nat) {
            let r = routes[n - 1];
            let index = n - 1;
            if let Some(sel) = r.select {
                lemma_select_plan_bounds(sel, index);
            }
            if let Ok((p, lm2)) = spec_node_plan(r, index, lm) {
                let ps2 = ps.push(p);
                assert forall|j: int, k: int|
                    #![trigger ps2[j], ps2[j]->0[k]]
                    0 <= j < n && ps2[j] is Some && 0 <= k < ps2[j]->0.len() implies ps2[j]->0[k]
                    as int <= j by {
                    if j < n - 1 {
                        assert(ps2[j] == ps[j]);
                    } else {
                        assert(ps2[j] == p);
                        if r.select is None && is_merger(r.processor) {
                            assert(p == Some(merger_range(lm, index)));
                            assert(0 <= lm + 1 + k <= index);
                            assert(p->0[k] as int == lm + 1 + k);
                        }
                    }
                }
            }
        }
    }
}

/// A refusal while planning the first `m` nodes refuses the whole prefix of
/// any length beyond.
proof fn lemma_plans_err(routes: Seq<RouteView>, m: nat, n: nat)
    requires
        m <= n,
        spec_plans_upto(routes, m) is Err,
    ensures
        spec_plans_upto(routes, n) == spec_plans_upto(routes, m),
    decreases n - m,
{
    if n > m {
        lemma_plans_err(routes, m, (n - 1) as nat);
    }
}

/// Plans a pipeline for the routes of its nodes.
fn make_plans(routes: &Vec<NodeRoute>) -> (r: Result<Vec<Option<Vec<usize>>>, PlanError>)
    ensures
        match r {
            Ok(ps) => spec_plans(route_views(routes@)) == Ok::<_, PlanError>(
                ps@.map_values(|p: Option<Vec<usize>>| plan_view(p)),
            ),
            Err(e) => spec_plans(route_views(routes@)) == Err::<Seq<Option<Seq<usize>>>, _>(e),
        },
{
    let ghost rv = route_views(routes@);
    if routes.len() == 0 {
        return Err(PlanError::NoNodes);
    }
    let mut plans: Vec<Option<Vec<usize>>> = Vec::new();
    // The buffers after the last merger start here.
    let mut merge_start: usize = 0;
    let mut index: usize = 0;
    proof {
        assert(plans@.map_values(|p: Option<Vec<usize>>| plan_view(p)) =~= Seq::<
            Option<Seq<usize>>,
        >::empty());
    }
    while index < routes.len()
        invariant
            index <= routes.len(),
            rv == route_views(routes@),
            rv.len() == routes.len(),
            spec_plans_upto(rv, index as nat) == Ok::<_, PlanError>(
                (plans@.map_values(|p: Option<Vec<usize>>| plan_view(p)), merge_start - 1),
            ),
            merge_start <= index,
        decreases routes.len() - index,
    {
        let route = &routes[index];
        let ghost lm: int = merge_start - 1;
        proof {
            assert(rv[index as int] == route.view());
        }
        let plan: Option<Vec<usize>>;
        let ghost expected: Result<(Option<Seq<usize>>, int), PlanError> = spec_node_plan(
            rv[index as int],
            index as int,
            lm,
        );
        match &route.select {
            Some(sel) => {
                let mut ids: Vec<usize> = Vec::new();
                let mut k: usize = 0;
                proof {
                    assert(sel@.skip(0) =~= sel@);
                    match spec_select_plan(sel@, index as int) {
                        Ok(rest) => {
                            assert(ids@ + rest =~= rest);
                        },
                        Err(_) => {},
                    }
                }
                while k < sel.len()
                    invariant
                        k <= sel.len(),
                        index < routes.len(),
                        rv == route_views(routes@),
                        rv.len() == routes.len(),
                        rv[index as int].select == Some(sel@),
                        lm == merge_start - 1,
                        spec_plans_upto(rv, index as nat) == Ok::<_, PlanError>(
                            (plans@.map_values(|p: Option<Vec<usize>>| plan_view(p)), lm),
                        ),
                        spec_select_plan(sel@, index as int) == match spec_select_plan(
                            sel@.skip(k as int),
                            index as int,
                        ) {
                            Ok(rest) => Ok(ids@ + rest),
                            Err(e) => Err(e),
                        },
                    decreases sel.len() - k,
                {
                    proof {
                        assert(sel@.skip(k as int)[0] == sel@[k as int]);
                        assert(sel@.skip(k as int).drop_first() =~= sel@.skip(k + 1));
                    }
                    match sel[k] {
                        None => {
                            proof {
                                assert(spec_select_plan(sel@, index as int) == Err::<Seq<usize>, _>(PlanError::NotInteger));
                                assert(spec_plans_upto(rv, (index + 1) as nat) == Err::<(Seq<Option<Seq<usize>>>, int), _>(PlanError::NotInteger));
                                lemma_plans_err(rv, (index + 1) as nat, rv.len());
                            }
                            return Err(PlanError::NotInteger);
                        },
                        Some(raw) => {
                            let resolved: i128 = if raw < 0 {
                                index as i128 + 1 + raw as i128
                            } else {
                                raw as i128
                            };
                            if resolved < 0 || resolved > index as i128 {
                                proof {
                                    assert(spec_select_plan(sel@, index as int) == Err::<Seq<usize>, _>(PlanError::BadIndex(raw)));
                                    assert(spec_plans_upto(rv, (index + 1) as nat) == Err::<(Seq<Option<Seq<usize>>>, int), _>(PlanError::BadIndex(raw)));
                                    lemma_plans_err(rv, (index + 1) as nat, rv.len());
                                }
                                return Err(PlanError::BadIndex(raw));
                            }
                            let ghost old_ids = ids@;
                            ids.push(resolved as usize);
                            proof {
                                match spec_select_plan(sel@.skip(k + 1), index as int) {
                                    Ok(rest) => {
                                        assert(old_ids + (seq![resolved as usize] + rest) =~= ids@
                                            + rest);
                                    },
                                    Err(e) => {},
                                }
                            }
                        },
                    }
                    k = k + 1;
                }
                proof {
                    assert(sel@.skip(k as int).len() == 0);
                    assert(ids@ + Seq::<usize>::empty() =~= ids@);
                    assert(expected == Ok::<_, PlanError>((Some(ids@), lm)));
                }
                plan = Some(ids);
            },
            None => {
                let is_concat = crate::chars::chars_eq_str(
                    crate::chars::to_chars(route.processor.as_str()).as_slice(),
                    "concat",
                );
                let is_alignment = crate::chars::chars_eq_str(
                    crate::chars::to_chars(route.processor.as_str()).as_slice(),
                    "alignment",
                );
                if is_concat || is_alignment {
                    let mut ids: Vec<usize> = Vec::new();
                    let mut i: usize = merge_start;
                    while i <= index
                        invariant
                            merge_start <= i <= index + 1,
                            index < routes.len(),
                            lm == merge_start - 1,
                            ids@ =~= merger_range(lm, index as int).take(i - merge_start),
                        decreases index + 1 - i,
                    {
                        proof {
                            assert(merger_range(lm, index as int)[i - merge_start] == i);
                        }
                        ids.push(i);
                        i = i + 1;
                    }
                    proof {
                        assert(ids@ =~= merger_range(lm, index as int));
                        assert(is_merger(rv[index as int].processor));
                        assert(expected == Ok::<_, PlanError>((Some(ids@), index as int)));
                    }
                    plan = Some(ids);
                    merge_start = index + 1;
                } else if route.buffer_path.is_some() {
                    proof {
                        assert(!is_merger(rv[index as int].processor));
                        assert(expected == Ok::<_, PlanError>((None::<Seq<usize>>, lm)));
                    }
                    plan = None;
                } else {
                    let mut ids: Vec<usize> = Vec::new();
                    ids.push(index);
                    proof {
                        assert(ids@ =~= seq![index as usize]);
                        assert(!is_merger(rv[index as int].processor));
                        assert(expected == Ok::<_, PlanError>((Some(ids@), lm)));
                    }
                    plan = Some(ids);
                }
            },
        }
        let ghost pv = plan_view(plan);
        let ghost old_plans = plans@;
        plans.push(plan);
        proof {
            assert(expected == Ok::<_, PlanError>((pv, merge_start - 1)));
            assert(plans@.map_values(|p: Option<Vec<usize>>| plan_view(p)) =~= old_plans.map_values(
                |p: Option<Vec<usize>>| plan_view(p),
            ).push(pv));
        }
        index = index + 1;
    }
    proof {
        assert(rv.len() == routes.len());
    }
    Ok(plans)
}

/// The buffers a plan reads, as plain indices.
pub open spec fn plan_view(p: Option<Vec<usize>>) -> Option<Seq<usize>> {
    match p {
        Some(v) => Some(v@),
        None => None,
    }
}

/// What a node receives as input.
pub enum NodeInput {
    /// The images of the buffers its plan reads.
    Images(Vec<Image>),
    /// The image files it loads instead.
    Paths(Vec<String>),
}

/// A pipeline in progress: the plans, how often each buffer will still be
/// read, and the buffers that are still needed.
pub struct PipelineRun {
    routes: Vec<NodeRoute>,
    plans: Vec<Option<Vec<usize>>>,
    uses: Vec<usize>,
    buffers: Vec<Option<Vec<Image>>>,
    next: usize,
    awaiting: bool,
    outputs: Ghost<Seq<Seq<ImageView>>>,
}

impl PipelineRun {
    /// The plans of all nodes.
    pub closed spec fn spec_plans(&self) -> Seq<Option<Seq<usize>>> {
        self.plans@.map_values(|p: Option<Vec<usize>>| plan_view(p))
    }

    /// The routes of all nodes.
    pub closed spec fn spec_routes(&self) -> Seq<NodeRoute> {
        self.routes@
    }

    /// The images of every buffer produced so far; buffer 0 is the source.
    pub closed spec fn spec_outputs(&self) -> Seq<Seq<ImageView>> {
        self.outputs@
    }

    /// The node that runs next.
    pub closed spec fn spec_next(&self) -> int {
        self.next as int
    }

    /// Whether the next node has taken its input and its output is due.
    pub closed spec fn spec_awaiting(&self) -> bool {
        self.awaiting
    }

    /// The number of nodes.
    pub closed spec fn spec_len(&self) -> int {
        self.plans@.len() as int
    }

    /// Internal consistency of the bookkeeping.
    pub closed spec fn wf(&self) -> bool {
        let plans = self.spec_plans();
        let n = self.plans@.len();
        let from = if self.awaiting {
            self.next + 1
        } else {
            self.next as int
        };
        &&& n >= 1
        &&& self.routes@.len() == n
        &&& spec_plans(route_views(self.routes@)) == Ok::<_, PlanError>(plans)
        &&& self.uses@.len() == n + 1
        &&& self.next <= n
        &&& self.awaiting ==> self.next < n
        &&& self.buffers@.len() == self.next + 1
        &&& self.outputs@.len() == self.next + 1
        &&& forall|j: int, k: int|
            #![trigger plans[j], plans[j]->0[k]]
            0 <= j < n && plans[j] is Some && 0 <= k < plans[j]->0.len() ==> plans[j]->0[k] as int
                <= j
        &&& forall|i: int| 0 <= i <= n ==> #[trigger] self.uses@[i] == remaining(plans, from, i)
        &&& forall|i: int|
            0 <= i < self.buffers@.len() ==> match #[trigger] self.buffers@[i] {
                Some(v) => self.uses@[i] > 0 && all_wf(v@) && views(v@) == self.outputs@[i],
                None => self.uses@[i] == 0,
            }
    }

    /// Plans the pipeline and holds `initial` as buffer 0. Fails when there
    /// is no node or a `select` entry is refused.
    pub fn start(routes: Vec<NodeRoute>, initial: Image) -> (r: Result<PipelineRun, String>)
        requires
            initial.wf(),
            spec_plans(route_views(routes@)) matches Ok(ps) ==> total_reads(ps) <= usize::MAX,
        ensures
            match spec_plans(route_views(routes@)) {
                Ok(ps) => r matches Ok(run) && run.wf() && run.spec_plans() == ps
                    && run.spec_routes() == routes@ && run.spec_next() == 0 && !run.spec_awaiting()
                    && run.spec_outputs() == seq![seq![initial@]],
                Err(e) => r matches Err(msg) && msg@ == spec_plan_error_message(e),
            },
    {
        let plans = match make_plans(&routes) {
            Ok(ps) => ps,
            Err(e) => {
                return Err(plan_error_message(e));
            },
        };
        let ghost ps = plans@.map_values(|p: Option<Vec<usize>>| plan_view(p));
        proof {
            assert(routes@.len() == routes.len());
            assert(route_views(routes@).len() == routes@.len());
            lemma_plans_bounds(route_views(routes@), routes@.len());
        }
        let n = plans.len();
        let mut uses: Vec<usize> = Vec::new();
        uses.push(0);
        let mut i: usize = 0;
        while i < n
            invariant
                i <= n,
                n == plans.len(),
                uses@.len() == i + 1,
                forall|k: int| 0 <= k <= i ==> uses@[k] == 0,
            decreases n - i,
        {
            uses.push(0);
            i = i + 1;
        }
        // Count every read: after node j, uses[i] counts the reads of nodes
        // 0..j, which together make `counted` reads.
        let mut j: usize = 0;
        let ghost mut counted: nat = 0;
        while j < n
            invariant
                j <= n,
                n == plans.len(),
                n >= 1,
                ps == plans@.map_values(|p: Option<Vec<usize>>| plan_view(p)),
                total_reads(ps) <= usize::MAX,
                uses@.len() == n + 1,
                forall|jj: int, k: int|
                    #![trigger ps[jj], ps[jj]->0[k]]
                    0 <= jj < n && ps[jj] is Some && 0 <= k < ps[jj]->0.len() ==> ps[jj]->0[k]
                        as int <= jj,
                forall|i2: int| 0 <= i2 <= n ==> #[trigger] uses@[i2] + remaining(ps, j as int, i2) == remaining(ps, 0, i2),
                forall|i2: int| 0 <= i2 <= n ==> #[trigger] uses@[i2] <= counted,
                counted == total_reads(ps.take(j as int)),
            decreases n - j,
        {
            proof {
                lemma_total_reads_take(ps, j as int);
            }
            match &plans[j] {
                Some(ids) => {
                    let mut k: usize = 0;
                    let ghost base = uses@;
                    let ghost base_counted = counted;
                    while k < ids.len()
                        invariant
                            k <= ids.len(),
                            j < n,
                            n == plans.len(),
                            ps == plans@.map_values(|p: Option<Vec<usize>>| plan_view(p)),
                            ps[j as int] == Some(ids@),
                            uses@.len() == n + 1,
                            base.len() == n + 1,
                            forall|k2: int| 0 <= k2 < ids.len() ==> (#[trigger] ids@[k2]) as int <= j,
                            forall|i2: int| 0 <= i2 <= n ==> #[trigger] uses@[i2] == base[i2] + count_in(ids@.take(k as int), i2),
                            forall|i2: int| 0 <= i2 <= n ==> #[trigger] base[i2] <= base_counted,
                            base_counted + ids@.len() <= usize::MAX,
                        decreases ids.len() - k,
                    {
                        let id = ids[k];
                        proof {
                            lemma_count_take_push(ids@, k as int);
                            lemma_count_le_len(ids@.take(k as int), id as int);
                        }
                        uses.set(id, uses[id] + 1);
                        k = k + 1;
                    }
                    proof {
                        assert(ids@.take(k as int) =~= ids@);
                        counted = counted + ids@.len();
                        assert forall|i2: int| 0 <= i2 <= n implies #[trigger] uses@[i2] <= counted by {
                            lemma_count_le_len(ids@, i2);
                        }
                    }
                },
                None => {},
            }
            proof {
                assert forall|i2: int| 0 <= i2 <= n implies #[trigger] uses@[i2] + remaining(ps, j + 1, i2) == remaining(ps, 0, i2) by {
                    assert(remaining(ps, j as int, i2) == (match ps[j as int] {
                        Some(ids) => count_in(ids, i2),
                        None => 0nat,
                    }) + remaining(ps, j + 1, i2));
                }
                assert(ps.take(j + 1).drop_last() =~= ps.take(j as int));
            }
            j = j + 1;
        }
        let mut buffers: Vec<Option<Vec<Image>>> = Vec::new();
        let run_initial: Option<Vec<Image>>;
        if uses[0] == 0 {
            run_initial = None;
        } else {
            let mut v: Vec<Image> = Vec::new();
            v.push(initial);
            run_initial = Some(v);
        }
        let ghost init_view = initial@;
        let ghost outs: Seq<Seq<ImageView>> = seq![seq![init_view]];
        let first_outputs: Ghost<Seq<Seq<ImageView>>> = Ghost(outs);
        buffers.push(run_initial);
        let run = PipelineRun {
            routes,
            plans,
            uses,
            buffers,
            next: 0,
            awaiting: false,
            outputs: first_outputs,
        };
        proof {
            assert forall|i2: int| 0 <= i2 <= n implies #[trigger] run.uses@[i2] == remaining(ps, 0, i2) by {
                lemma_remaining_past_end(ps, n as int, i2);
            }
            assert forall|i2: int| 0 <= i2 < run.buffers@.len() implies match #[trigger] run.buffers@[i2] {
                Some(v) => run.uses@[i2] > 0 && all_wf(v@) && views(v@) == run.outputs@[i2],
                None => run.uses@[i2] == 0,
            } by {
                if let Some(v) = run.buffers@[i2] {
                    assert(views(v@) =~= seq![init_view]);
                }
            }
            assert(run.spec_plans() == ps);
        }
        Ok(run)
    }

    /// Hands out the input of the next node: the images of the buffers its
    /// plan names, in plan order, or the paths it loads. A buffer read for
    /// the last time is moved out; any other read is copied.
    pub fn take_input(&mut self) -> (r: Result<NodeInput, String>)
        requires
            old(self).wf(),
            !old(self).spec_awaiting(),
            old(self).spec_next() < old(self).spec_len(),
        ensures
            final(self).wf(),
            final(self).spec_awaiting(),
            final(self).spec_next() == old(self).spec_next(),
            final(self).spec_plans() == old(self).spec_plans(),
            final(self).spec_routes() == old(self).spec_routes(),
            final(self).spec_outputs() == old(self).spec_outputs(),
            match old(self).spec_plans()[old(self).spec_next()] {
                Some(ids) => r matches Ok(NodeInput::Images(v)) && all_wf(v@) && views(v@)
                    == gather(old(self).spec_outputs(), ids),
                None => match old(self).spec_routes()[old(self).spec_next()].buffer_path {
                    Some(BufferPath::Paths(ps)) => r matches Ok(NodeInput::Paths(qs)) && qs@
                        == ps@,
                    _ => r matches Err(msg) && msg@ == spec_bad_buffer_path_message(),
                },
            },
    {
        let ghost plans = self.spec_plans();
        let ghost outputs = self.outputs@;
        let n = self.plans.len();
        let index = self.next;
        proof {
            assert(plans[index as int] == plan_view(self.plans@[index as int]));
        }
        match &self.plans[index] {
            Some(ids_ref) => {
                let ids = copy_ids(ids_ref);
                let mut input: Vec<Image> = Vec::new();
                let mut k: usize = 0;
                proof {
                    assert(ids@.skip(0) =~= ids@);
                    assert forall|i: int| 0 <= i <= n implies #[trigger] self.uses@[i] == count_in(
                        ids@.skip(0),
                        i,
                    ) + remaining(plans, index + 1, i) by {
                        assert(remaining(plans, index as int, i) == count_in(ids@, i) + remaining(
                            plans,
                            index + 1,
                            i,
                        ));
                    }
                    assert(views(input@) =~= gather(outputs, ids@.take(0)));
                }
                while k < ids.len()
                    invariant
                        k <= ids.len(),
                        self.routes@ == old(self).routes@,
                        self.plans@ == old(self).plans@,
                        index == self.next,
                        index < n,
                        n == self.plans@.len(),
                        !self.awaiting,
                        plans == self.spec_plans(),
                        outputs == self.outputs@,
                        plans[index as int] == Some(ids@),
                        self.routes@.len() == n,
                        spec_plans(route_views(self.routes@)) == Ok::<_, PlanError>(plans),
                        self.uses@.len() == n + 1,
                        self.buffers@.len() == index + 1,
                        self.outputs@.len() == index + 1,
                        forall|j: int, k2: int|
                            #![trigger plans[j], plans[j]->0[k2]]
                            0 <= j < n && plans[j] is Some && 0 <= k2 < plans[j]->0.len()
                                ==> plans[j]->0[k2] as int <= j,
                        forall|i: int| 0 <= i <= n ==> #[trigger] self.uses@[i] == count_in(ids@.skip(k as int), i) + remaining(plans, index + 1, i),
                        forall|i: int|
                            0 <= i < self.buffers@.len() ==> match #[trigger] self.buffers@[i] {
                                Some(v) => self.uses@[i] > 0 && all_wf(v@) && views(v@)
                                    == self.outputs@[i],
                                None => self.uses@[i] == 0,
                            },
                        all_wf(input@),
                        views(input@) == gather(outputs, ids@.take(k as int)),
                    decreases ids.len() - k,
                {
                    let id = ids[k];
                    proof {
                        assert(plans[index as int]->0[k as int] == id);
                        lemma_count_skip(ids@, k as int, id as int);
                    }
                    let left = self.uses[id] - 1;
                    self.uses.set(id, left);
                    let mut images: Vec<Image>;
                    if left == 0 {
                        let mut slot: Option<Vec<Image>> = None;
                        self.buffers.set_and_swap(id, &mut slot);
                        images = match slot {
                            Some(v) => v,
                            None => {
                                proof {
                                    assert(false);
                                }
                                Vec::new()
                            },
                        };
                    } else {
                        images = match &self.buffers[id] {
                            Some(v) => crate::image::duplicate_all(v),
                            None => {
                                proof {
                                    assert(false);
                                }
                                Vec::new()
                            },
                        };
                    }
                    let ghost before = input@;
                    let ghost added = images@;
                    proof {
                        assert(views(added) == outputs[id as int]) by {
                            assert(views(added) =~= outputs[id as int]);
                        }
                    }
                    input.append(&mut images);
                    proof {
                        assert(input@ == before + added);
                        assert(views(input@) =~= views(before) + views(added));
                        assert(ids@.take(k + 1).drop_last() =~= ids@.take(k as int));
                        assert(all_wf(input@)) by {
                            assert forall|q: int| 0 <= q < input@.len() implies (#[trigger] input@[q]).wf() by {
                                if q < before.len() {
                                    assert(input@[q] == before[q]);
                                } else {
                                    assert(input@[q] == added[q - before.len()]);
                                }
                            }
                        }
                        assert forall|i: int| 0 <= i <= n implies #[trigger] self.uses@[i] == count_in(ids@.skip(k + 1), i) + remaining(plans, index + 1, i) by {
                            lemma_count_skip(ids@, k as int, i);
                        }
                    }
                    k = k + 1;
                }
                self.awaiting = true;
                proof {
                    assert(ids@.take(k as int) =~= ids@);
                    assert forall|i: int| 0 <= i <= n implies #[trigger] self.uses@[i] == remaining(plans, index + 1, i) by {
                        assert(ids@.skip(k as int).len() == 0);
                    }
                }
                Ok(NodeInput::Images(input))
            },
            None => {
                self.awaiting = true;
                proof {
                    assert forall|i: int| 0 <= i <= n implies #[trigger] self.uses@[i] == remaining(plans, index + 1, i) by {
                        assert(remaining(plans, index as int, i) == remaining(plans, index + 1, i));
                    }
                }
                match &self.routes[index].buffer_path {
                    Some(BufferPath::Paths(ps)) => Ok(NodeInput::Paths(copy_strings(ps))),
                    _ => Err("buffer_path 必须是路径或路径数组".to_owned()),
                }
            },
        }
    }

    /// Accepts the output of the node that took its input. For the last
    /// node the result is its first image, or an error when it produced
    /// none; otherwise the output becomes the next buffer (dropped when no
    /// later node reads it) and `None` is returned.
    pub fn give_output(&mut self, output: Vec<Image>) -> (r: Option<Result<Image, String>>)
        requires
            old(self).wf(),
            old(self).spec_awaiting(),
            all_wf(output@),
        ensures
            final(self).spec_plans() == old(self).spec_plans(),
            final(self).spec_routes() == old(self).spec_routes(),
            old(self).spec_next() + 1 == old(self).spec_len() ==> match r {
                Some(Ok(img)) => output@.len() > 0 && img.wf() && img@ == output@[0]@,
                Some(Err(msg)) => output@.len() == 0 && msg@ == spec_no_output_message(),
                None => false,
            },
            old(self).spec_next() + 1 < old(self).spec_len() ==> r is None && final(self).wf()
                && !final(self).spec_awaiting() && final(self).spec_next() == old(self).spec_next()
                + 1 && final(self).spec_outputs() == old(self).spec_outputs().push(
                views(output@),
            ),
    {
        let ghost plans = self.spec_plans();
        let n = self.plans.len();
        let index = self.next;
        if index + 1 == n {
            self.next = n;
            self.awaiting = false;
            let mut output = output;
            if output.len() == 0 {
                return Some(Err("处理器没有生成图像".to_owned()));
            }
            let first = output.remove(0);
            return Some(Ok(first));
        }
        let ghost out_views = views(output@);
        let keep = self.uses[index + 1] != 0;
        if keep {
            self.buffers.push(Some(output));
        } else {
            self.buffers.push(None);
        }
        let ghost outs: Seq<Seq<ImageView>> = self.outputs@.push(out_views);
        let new_outputs: Ghost<Seq<Seq<ImageView>>> = Ghost(outs);
        self.outputs = new_outputs;
        self.next = index + 1;
        self.awaiting = false;
        proof {
            let next = index + 1;
            assert forall|i: int|
                0 <= i < self.buffers@.len() implies match #[trigger] self.buffers@[i] {
                Some(v) => self.uses@[i] > 0 && all_wf(v@) && views(v@) == self.outputs@[i],
                None => self.uses@[i] == 0,
            } by {
                if i < next {
                    assert(self.buffers@[i] == old(self).buffers@[i]);
                    assert(self.outputs@[i] == old(self).outputs@[i]);
                }
            }
        }
        None
    }
}

fn copy_ids(v: &Vec<usize>) -> (r: Vec<usize>)
    ensures
        r@ == v@,
{
    let mut r: Vec<usize> = Vec::new();
    let mut i: usize = 0;
    while i < v.len()
        invariant
            i <= v.len(),
            r@ == v@.take(i as int),
        decreases v.len() - i,
    {
        r.push(v[i]);
        i = i + 1;
        proof {
            assert(r@ =~= v@.take(i as int));
        }
    }
    proof {
        assert(v@.take(i as int) =~= v@);
    }
    r
}

fn copy_strings(v: &Vec<String>) -> (r: Vec<String>)
    ensures
        r@ == v@,
{
    let mut r: Vec<String> = Vec::new();
    let mut i: usize = 0;
    while i < v.len()
        invariant
            i <= v.len(),
            r@ == v@.take(i as int),
        decreases v.len() - i,
    {
        r.push(v[i].clone());
        i = i + 1;
        proof {
            assert(r@ =~= v@.take(i as int));
        }
    }
    proof {
        assert(v@.take(i as int) =~= v@);
    }
    r
}

proof fn lemma_count_skip(s: Seq<usize>, k: int, i: int)
    requires
        0 <= k < s.len(),
    ensures
        count_in(s.skip(k), i) == (if s[k] as int == i {
            1nat
        } else {
            0nat
        }) + count_in(s.skip(k + 1), i),
{
    assert(s.skip(k)[0] == s[k]);
    assert(s.skip(k).drop_first() =~= s.skip(k + 1));
}

proof fn lemma_count_append_one(s: Seq<usize>, x: usize, i: int)
    ensures
        count_in(s.push(x), i) == count_in(s, i) + (if x as int == i {
            1nat
        } else {
            0nat
        }),
    decreases s.len(),
{
    let t = s.push(x);
    assert(count_in(t, i) == (if t[0] as int == i {
        1nat
    } else {
        0nat
    }) + count_in(t.drop_first(), i));
    if s.len() == 0 {
        assert(t.drop_first() =~= Seq::<usize>::empty());
        assert(t[0] == x);
    } else {
        assert(t[0] == s[0]);
        assert(t.drop_first() =~= s.drop_first().push(x));
        lemma_count_append_one(s.drop_first(), x, i);
    }
}

proof fn lemma_count_take_push(s: Seq<usize>, k: int)
    requires
        0 <= k < s.len(),
    ensures
        forall|i: int|
            #[trigger] count_in(s.take(k + 1), i) == count_in(s.take(k), i) + (if s[k] as int
                == i {
                1nat
            } else {
                0nat
            }),
{
    assert(s.take(k + 1) =~= s.take(k).push(s[k]));
    assert forall|i: int|
        #[trigger] count_in(s.take(k + 1), i) == count_in(s.take(k), i) + (if s[k] as int == i {
            1nat
        } else {
            0nat
        }) by {
        lemma_count_append_one(s.take(k), s[k], i);
    }
}

proof fn lemma_count_le_len(s: Seq<usize>, i: int)
    ensures
        count_in(s, i) <= s.len(),
    decreases s.len(),
{
    if s.len() > 0 {
        lemma_count_le_len(s.drop_first(), i);
    }
}

proof fn lemma_remaining_past_end(ps: Seq<Option<Seq<usize>>>, from: int, i: int)
    requires
        from >= ps.len(),
    ensures
        remaining(ps, from, i) == 0,
{
}

proof fn lemma_total_reads_take(ps: Seq<Option<Seq<usize>>>, j: int)
    requires
        0 <= j < ps.len(),
    ensures
        total_reads(ps.take(j + 1)) == total_reads(ps.take(j)) + match ps[j] {
            Some(ids) => ids.len(),
            None => 0nat,
        },
        total_reads(ps.take(j + 1)) <= total_reads(ps),
{
    assert(ps.take(j + 1).drop_last() =~= ps.take(j));
    lemma_total_reads_prefix(ps, j + 1);
}

proof fn lemma_total_reads_prefix(ps: Seq<Option<Seq<usize>>>, m: int)
    requires
        0 <= m <= ps.len(),
    ensures
        total_reads(ps.take(m)) <= total_reads(ps),
    decreases ps.len() - m,
{
    if m < ps.len() {
        lemma_total_reads_prefix(ps, m + 1);
        assert(ps.take(m + 1).drop_last() =~= ps.take(m));
    } else {
        assert(ps.take(m) =~= ps);
    }
}

} // verus!
