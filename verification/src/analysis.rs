//! Heuristic aggregations over the resolved `calls` graph: entrypoint→leaf
//! call chains ("processes") and label-propagation clusters ("communities").
//! Their confidence never upgrades a weak edge.

use vstd::prelude::*;
use crate::group::{lex_lt, lex_lt_exec};
use crate::text::{chars_of, seq_eq, str_views, text_is};

verus! {

/// Longest chain a process walks.
pub const PROCESS_MAX_CHAIN: usize = 8;

/// Most processes materialized.
pub const PROCESS_MAX_COUNT: usize = 50;

/// Shortest chain worth reporting.
pub const PROCESS_MIN_LEN: usize = 2;

/// One resolved `calls` edge, reduced to what the aggregations need.
#[derive(Debug, Clone)]
pub struct CallEdge {
    pub src: String,
    pub dst: String,
    /// strong | weak
    pub conf: String,
}

pub ghost struct CallEdgeV {
    pub src: Seq<char>,
    pub dst: Seq<char>,
    pub conf: Seq<char>,
}

impl View for CallEdge {
    type V = CallEdgeV;

    open spec fn view(&self) -> CallEdgeV {
        CallEdgeV { src: self.src@, dst: self.dst@, conf: self.conf@ }
    }
}

pub open spec fn edge_views(v: Seq<CallEdge>) -> Seq<CallEdgeV> {
    v.map_values(|e: CallEdge| e@)
}

// ------------------------------------------------------------ confidence ---

pub open spec fn all_strong(confs: Seq<Seq<char>>) -> bool {
    forall|i: int| 0 <= i < confs.len() ==> #[trigger] confs[i] == "strong"@
}

/// `strong` only when every contributing edge is strong.
pub open spec fn aggregate_conf_spec(confs: Seq<Seq<char>>) -> Seq<char> {
    if all_strong(confs) {
        "strong"@
    } else {
        "weak"@
    }
}

/// `strong` only if every contributing confidence is `strong`; `weak` if any
/// is not.
pub fn aggregate_conf(confs: &Vec<String>) -> (r: String)
    ensures
        r@ == aggregate_conf_spec(str_views(confs@)),
{
    let mut i: usize = 0;
    while i < confs.len()
        invariant
            i <= confs@.len(),
            forall|k: int| 0 <= k < i ==> #[trigger] str_views(confs@)[k] == "strong"@,
        decreases confs.len() - i,
    {
        assert(str_views(confs@)[i as int] == confs@[i as int]@);
        if !text_is(confs[i].as_str(), "strong") {
            return owned("weak");
        }
        i += 1;
    }
    owned("strong")
}

fn owned(s: &str) -> (r: String)
    ensures
        r@ == s@,
{
    let mut r = String::new();
    crate::text::append_str(&mut r, s);
    r
}

// ------------------------------------------------------------- processes ---

pub open spec fn has_out(calls: Seq<CallEdgeV>, id: Seq<char>) -> bool {
    exists|k: int| 0 <= k < calls.len() && #[trigger] calls[k].src == id
}

pub open spec fn has_in(calls: Seq<CallEdgeV>, id: Seq<char>) -> bool {
    exists|k: int| 0 <= k < calls.len() && #[trigger] calls[k].dst == id
}

pub open spec fn is_entrypoint(calls: Seq<CallEdgeV>, id: Seq<char>) -> bool {
    has_out(calls, id) && !has_in(calls, id)
}

/// Symbols that call something and are called by nothing, in id order,
/// at most `PROCESS_MAX_COUNT` of them.
pub open spec fn entrypoints(ids: Seq<Seq<char>>, calls: Seq<CallEdgeV>) -> Seq<Seq<char>> {
    let all = ids.filter(|id: Seq<char>| is_entrypoint(calls, id));
    if all.len() > PROCESS_MAX_COUNT {
        all.take(PROCESS_MAX_COUNT as int)
    } else {
        all
    }
}

/// Order on `(callee, confidence)` pairs: callee first, then confidence.
pub open spec fn pair_lt(a: (Seq<char>, Seq<char>), b: (Seq<char>, Seq<char>)) -> bool {
    lex_lt(a.0, b.0) || (a.0 == b.0 && lex_lt(a.1, b.1))
}

/// The least `(callee, confidence)` among the first `k` edges out of `cur`
/// whose callee is not yet on the chain.
pub open spec fn best_step(calls: Seq<CallEdgeV>, cur: Seq<char>, steps: Seq<Seq<char>>, k: int) -> Option<
    (Seq<char>, Seq<char>),
>
    decreases k,
{
    if k <= 0 {
        None
    } else {
        let b = best_step(calls, cur, steps, k - 1);
        let e = calls[k - 1];
        if e.src == cur && !steps.contains(e.dst) {
            match b {
                None => Some((e.dst, e.conf)),
                Some(p) => if pair_lt((e.dst, e.conf), p) {
                    Some((e.dst, e.conf))
                } else {
                    b
                },
            }
        } else {
            b
        }
    }
}

pub ghost struct Chain {
    pub steps: Seq<Seq<char>>,
    pub confs: Seq<Seq<char>>,
}

/// Extend a chain by its least unvisited callee until it has
/// `PROCESS_MAX_CHAIN` steps or reaches a leaf or a cycle.
pub open spec fn chain_from(calls: Seq<CallEdgeV>, c: Chain, fuel: nat) -> Chain
    decreases fuel,
{
    if fuel == 0 || c.steps.len() >= PROCESS_MAX_CHAIN || c.steps.len() == 0 {
        c
    } else {
        match best_step(calls, c.steps.last(), c.steps, calls.len() as int) {
            None => c,
            Some((d, cf)) => chain_from(
                calls,
                Chain { steps: c.steps.push(d), confs: c.confs.push(cf) },
                (fuel - 1) as nat,
            ),
        }
    }
}

pub open spec fn chain_of(calls: Seq<CallEdgeV>, ep: Seq<char>) -> Chain {
    chain_from(calls, Chain { steps: seq![ep], confs: Seq::empty() }, PROCESS_MAX_CHAIN as nat)
}

pub ghost struct ProcessV {
    pub entrypoint: Seq<char>,
    pub steps: Seq<Seq<char>>,
    pub conf: Seq<char>,
}

pub open spec fn processes_from(calls: Seq<CallEdgeV>, eps: Seq<Seq<char>>) -> Seq<ProcessV>
    decreases eps.len(),
{
    if eps.len() == 0 {
        Seq::empty()
    } else {
        let c = chain_of(calls, eps.last());
        processes_from(calls, eps.drop_last()) + if c.steps.len() >= PROCESS_MIN_LEN {
            seq![ProcessV { entrypoint: eps.last(), steps: c.steps, conf: aggregate_conf_spec(c.confs) }]
        } else {
            Seq::empty()
        }
    }
}

/// The processes of a calls graph over sorted symbol ids.
pub open spec fn processes_spec(ids: Seq<Seq<char>>, calls: Seq<CallEdgeV>) -> Seq<ProcessV> {
    if ids.len() == 0 || calls.len() == 0 {
        Seq::empty()
    } else {
        processes_from(calls, entrypoints(ids, calls))
    }
}

/// One process: its entrypoint, its ordered steps, and its confidence.
#[derive(Debug, Clone)]
pub struct RawProcess {
    pub entrypoint: String,
    pub steps: Vec<String>,
    pub conf: String,
}

impl View for RawProcess {
    type V = ProcessV;

    open spec fn view(&self) -> ProcessV {
        ProcessV { entrypoint: self.entrypoint@, steps: str_views(self.steps@), conf: self.conf@ }
    }
}

pub open spec fn process_views(v: Seq<RawProcess>) -> Seq<ProcessV> {
    v.map_values(|p: RawProcess| p@)
}

fn id_in(ids: &Vec<String>, id: &String) -> (r: bool)
    ensures
        r == str_views(ids@).contains(id@),
{
    let x = chars_of(id.as_str());
    let mut i: usize = 0;
    while i < ids.len()
        invariant
            i <= ids@.len(),
            x@ == id@,
            forall|k: int| 0 <= k < i ==> #[trigger] ids@[k]@ != id@,
        decreases ids.len() - i,
    {
        if seq_eq(&chars_of(ids[i].as_str()), &x) {
            assert(str_views(ids@)[i as int] == id@);
            return true;
        }
        i += 1;
    }
    proof {
        if str_views(ids@).contains(id@) {
            let k = choose|k: int| 0 <= k < ids@.len() && str_views(ids@)[k] == id@;
            assert(ids@[k]@ == id@);
        }
    }
    false
}

fn str_eq(a: &String, b: &String) -> (r: bool)
    ensures
        r == (a@ == b@),
{
    seq_eq(&chars_of(a.as_str()), &chars_of(b.as_str()))
}

fn is_entrypoint_exec(calls: &[CallEdge], id: &String) -> (r: bool)
    ensures
        r == is_entrypoint(edge_views(calls@), id@),
{
    let ghost cv = edge_views(calls@);
    let mut out = false;
    let mut inc = false;
    let mut k: usize = 0;
    while k < calls.len()
        invariant
            k <= calls@.len(),
            cv == edge_views(calls@),
            out == exists|j: int| 0 <= j < k && #[trigger] cv[j].src == id@,
            inc == exists|j: int| 0 <= j < k && #[trigger] cv[j].dst == id@,
        decreases calls.len() - k,
    {
        assert(cv[k as int] == calls@[k as int]@);
        let ghost o0 = out;
        let ghost i0 = inc;
        if str_eq(&calls[k].src, id) {
            out = true;
        }
        if str_eq(&calls[k].dst, id) {
            inc = true;
        }
        assert(out == exists|j: int| 0 <= j < k + 1 && #[trigger] cv[j].src == id@) by {
            if out && !o0 {
                assert(cv[k as int].src == id@);
            }
            if !out {
                assert forall|j: int| 0 <= j < k + 1 implies #[trigger] cv[j].src != id@ by {
                    if j < k {
                    }
                }
            }
        }
        assert(inc == exists|j: int| 0 <= j < k + 1 && #[trigger] cv[j].dst == id@) by {
            if inc && !i0 {
                assert(cv[k as int].dst == id@);
            }
            if !inc {
                assert forall|j: int| 0 <= j < k + 1 implies #[trigger] cv[j].dst != id@ by {
                    if j < k {
                    }
                }
            }
        }
        k += 1;
    }
    out && !inc
}

/// Index of the edge giving the least unvisited step out of `cur`.
fn best_step_exec(calls: &[CallEdge], cur: &String, steps: &Vec<String>) -> (r: Option<usize>)
    ensures
        match r {
            Some(k) => k < calls@.len() && best_step(
                edge_views(calls@),
                cur@,
                str_views(steps@),
                calls@.len() as int,
            ) == Some((calls@[k as int].dst@, calls@[k as int].conf@)),
            None => best_step(edge_views(calls@), cur@, str_views(steps@), calls@.len() as int) is None,
        },
{
    let ghost cv = edge_views(calls@);
    let mut best: Option<usize> = None;
    let mut k: usize = 0;
    while k < calls.len()
        invariant
            k <= calls@.len(),
            cv == edge_views(calls@),
            match best {
                Some(b) => b < k && best_step(cv, cur@, str_views(steps@), k as int) == Some(
                    (cv[b as int].dst, cv[b as int].conf),
                ),
                None => best_step(cv, cur@, str_views(steps@), k as int) is None,
            },
        decreases calls.len() - k,
    {
        let e = &calls[k];
        assert(cv[k as int] == e@);
        if str_eq(&e.src, cur) && !id_in(steps, &e.dst) {
            match best {
                None => {
                    best = Some(k);
                },
                Some(b) => {
                    let d = chars_of(e.dst.as_str());
                    let bd = chars_of(calls[b].dst.as_str());
                    let c = chars_of(e.conf.as_str());
                    let bc = chars_of(calls[b].conf.as_str());
                    assert(cv[b as int] == calls@[b as int]@);
                    if lex_lt_exec(&d, &bd) || (seq_eq(&d, &bd) && lex_lt_exec(&c, &bc)) {
                        best = Some(k);
                    }
                },
            }
        }
        k += 1;
    }
    best
}

/// Entrypoint→leaf call chains: from each entrypoint (in id order, at most
/// `PROCESS_MAX_COUNT`), follow the least unvisited callee until a leaf, a
/// cycle or `PROCESS_MAX_CHAIN` steps; chains shorter than
/// `PROCESS_MIN_LEN` are skipped.
pub fn entrypoint_processes(symbol_ids: &[String], calls: &[CallEdge]) -> (r: Vec<RawProcess>)
    ensures
        process_views(r@) == processes_spec(str_views(symbol_ids@), edge_views(calls@)),
{
    let ghost cv = edge_views(calls@);
    let ghost iv = str_views(symbol_ids@);
    let mut out: Vec<RawProcess> = Vec::new();
    if symbol_ids.len() == 0 || calls.len() == 0 {
        assert(process_views(out@) =~= Seq::<ProcessV>::empty());
        return out;
    }
    let ghost pred = |id: Seq<char>| is_entrypoint(cv, id);
    let mut eps: Vec<String> = Vec::new();
    let mut i: usize = 0;
    while i < symbol_ids.len() && eps.len() < PROCESS_MAX_COUNT
        invariant
            i <= symbol_ids@.len(),
            cv == edge_views(calls@),
            iv == str_views(symbol_ids@),
            pred == (|id: Seq<char>| is_entrypoint(cv, id)),
            str_views(eps@) == iv.take(i as int).filter(pred),
            eps@.len() <= PROCESS_MAX_COUNT,
        decreases symbol_ids.len() - i,
    {
        assert(iv.take(i + 1).drop_last() =~= iv.take(i as int));
        assert(iv.take(i + 1).last() == symbol_ids@[i as int]@);
        proof {
            reveal(Seq::filter);
        }
        if is_entrypoint_exec(calls, &symbol_ids[i]) {
            let ghost e0 = str_views(eps@);
            eps.push(symbol_ids[i].clone());
            assert(str_views(eps@) =~= e0.push(symbol_ids@[i as int]@));
        }
        i += 1;
    }
    proof {
        lemma_filter_prefix_cap(iv, pred, i as int, PROCESS_MAX_COUNT as int);
    }
    assert(str_views(eps@) == entrypoints(iv, cv));
    let ghost ev = str_views(eps@);
    let mut e: usize = 0;
    while e < eps.len()
        invariant
            e <= eps@.len(),
            cv == edge_views(calls@),
            ev == str_views(eps@),
            process_views(out@) == processes_from(cv, ev.take(e as int)),
        decreases eps.len() - e,
    {
        let ep = &eps[e];
        assert(ev.take(e + 1).drop_last() =~= ev.take(e as int));
        assert(ev.take(e + 1).last() == ep@);
        let mut steps: Vec<String> = Vec::new();
        steps.push(ep.clone());
        let mut confs: Vec<String> = Vec::new();
        let mut fuel: usize = PROCESS_MAX_CHAIN;
        assert(str_views(steps@) =~= seq![ep@]);
        assert(str_views(confs@) =~= Seq::<Seq<char>>::empty());
        let mut done = false;
        while !done && steps.len() < PROCESS_MAX_CHAIN && fuel > 0
            invariant
                cv == edge_views(calls@),
                steps@.len() >= 1,
                steps@.len() <= PROCESS_MAX_CHAIN,
                fuel <= PROCESS_MAX_CHAIN,
                chain_of(cv, ep@) == (if done {
                    Chain { steps: str_views(steps@), confs: str_views(confs@) }
                } else {
                    chain_from(cv, Chain { steps: str_views(steps@), confs: str_views(confs@) }, fuel as nat)
                }),
            decreases fuel + (if done {
                0int
            } else {
                1int
            }),
        {
            let cur = &steps[steps.len() - 1];
            assert(str_views(steps@).last() == cur@);
            match best_step_exec(calls, cur, &steps) {
                None => {
                    done = true;
                },
                Some(k) => {
                    let ghost s0 = str_views(steps@);
                    let ghost c0 = str_views(confs@);
                    steps.push(calls[k].dst.clone());
                    confs.push(calls[k].conf.clone());
                    assert(str_views(steps@) =~= s0.push(calls@[k as int].dst@));
                    assert(str_views(confs@) =~= c0.push(calls@[k as int].conf@));
                    fuel -= 1;
                },
            }
        }
        let ghost ch = chain_of(cv, ep@);
        assert(ch.steps == str_views(steps@));
        assert(ch.confs == str_views(confs@));
        if steps.len() >= PROCESS_MIN_LEN {
            let conf = aggregate_conf(&confs);
            let p = RawProcess { entrypoint: ep.clone(), steps, conf };
            let ghost pv = p@;
            let ghost o0 = process_views(out@);
            out.push(p);
            assert(process_views(out@) =~= o0.push(pv));
        }
        e += 1;
    }
    assert(ev.take(eps.len() as int) =~= ev);
    out
}

proof fn lemma_filter_prefix_cap(s: Seq<Seq<char>>, p: spec_fn(Seq<char>) -> bool, i: int, cap: int)
    requires
        0 <= i <= s.len(),
        0 <= cap,
        s.take(i).filter(p).len() <= cap,
        i < s.len() ==> s.take(i).filter(p).len() == cap,
    ensures
        s.take(i).filter(p) == (if s.filter(p).len() > cap {
            s.filter(p).take(cap)
        } else {
            s.filter(p)
        }),
    decreases s.len() - i,
{
    reveal(Seq::filter);
    if i == s.len() {
        assert(s.take(i) =~= s);
    } else {
        lemma_filter_take_prefix(s, p, i);
    }
}

/// Filtering a prefix gives a prefix of the filtered whole.
proof fn lemma_filter_take_prefix(s: Seq<Seq<char>>, p: spec_fn(Seq<char>) -> bool, i: int)
    requires
        0 <= i <= s.len(),
    ensures
        s.take(i).filter(p).len() <= s.filter(p).len(),
        s.take(i).filter(p) == s.filter(p).take(s.take(i).filter(p).len() as int),
    decreases s.len() - i,
{
    reveal(Seq::filter);
    if i == s.len() {
        assert(s.take(i) =~= s);
        assert(s.filter(p).take(s.filter(p).len() as int) =~= s.filter(p));
    } else {
        lemma_filter_take_prefix(s, p, i + 1);
        assert(s.take(i + 1).drop_last() =~= s.take(i));
        let a = s.take(i).filter(p);
        let b = s.take(i + 1).filter(p);
        if p(s[i]) {
            assert(b == a.push(s[i]));
            assert(a =~= b.take(a.len() as int));
            assert(s.filter(p).take(a.len() as int) =~= s.filter(p).take(b.len() as int).take(
                a.len() as int,
            ));
        } else {
            assert(b == a);
        }
    }
}

// -------------------------------------------------------------------- law ---

/// Every process is a simple path along `calls` edges from an entrypoint:
/// it starts at its entrypoint, which calls something and is called by
/// nothing; it has between `PROCESS_MIN_LEN` and `PROCESS_MAX_CHAIN` steps,
/// no step twice, and each step calls the next.
pub proof fn lemma_processes_are_simple_paths(ids: Seq<Seq<char>>, calls: Seq<CallEdgeV>, i: int)
    requires
        0 <= i < processes_spec(ids, calls).len(),
    ensures
        ({
            let p = processes_spec(ids, calls)[i];
            &&& p.steps.len() >= PROCESS_MIN_LEN
            &&& p.steps.len() <= PROCESS_MAX_CHAIN
            &&& p.steps[0] == p.entrypoint
            &&& is_entrypoint(calls, p.entrypoint)
            &&& forall|a: int, b: int| 0 <= a < b < p.steps.len() ==> #[trigger] p.steps[a] != #[trigger] p.steps[b]
            &&& forall|a: int|
                0 <= a < p.steps.len() - 1 ==> #[trigger] calls_edge(calls, p.steps[a], p.steps[a + 1])
        }),
{
    let eps = entrypoints(ids, calls);
    lemma_entrypoints_are(ids, calls);
    if ids.len() > 0 && calls.len() > 0 {
        lemma_processes_from(calls, eps, i);
        let p = processes_spec(ids, calls)[i];
        assert(simple_chain(calls, Chain { steps: p.steps, confs: Seq::empty() }));
    }
}

proof fn lemma_entrypoints_are(ids: Seq<Seq<char>>, calls: Seq<CallEdgeV>)
    ensures
        forall|k: int|
            0 <= k < entrypoints(ids, calls).len() ==> is_entrypoint(
                calls,
                #[trigger] entrypoints(ids, calls)[k],
            ),
{
    let all = ids.filter(|id: Seq<char>| is_entrypoint(calls, id));
    assert forall|k: int| 0 <= k < entrypoints(ids, calls).len() implies is_entrypoint(
        calls,
        #[trigger] entrypoints(ids, calls)[k],
    ) by {
        ids.lemma_filter_pred(|id: Seq<char>| is_entrypoint(calls, id), k);
    }
}

/// Some `calls` edge goes from `x` to `y`.
pub open spec fn calls_edge(calls: Seq<CallEdgeV>, x: Seq<char>, y: Seq<char>) -> bool {
    exists|k: int| 0 <= k < calls.len() && #[trigger] calls[k].src == x && calls[k].dst == y
}

pub open spec fn simple_chain(calls: Seq<CallEdgeV>, c: Chain) -> bool {
    &&& c.steps.len() >= 1
    &&& c.steps.len() <= PROCESS_MAX_CHAIN
    &&& forall|a: int, b: int| 0 <= a < b < c.steps.len() ==> #[trigger] c.steps[a] != #[trigger] c.steps[b]
    &&& forall|a: int|
        0 <= a < c.steps.len() - 1 ==> #[trigger] calls_edge(calls, c.steps[a], c.steps[a + 1])
}

proof fn lemma_best_step_is_edge(calls: Seq<CallEdgeV>, cur: Seq<char>, steps: Seq<Seq<char>>, k: int)
    requires
        k <= calls.len(),
    ensures
        best_step(calls, cur, steps, k) matches Some(p) ==> (!steps.contains(p.0) && calls_edge(
            calls,
            cur,
            p.0,
        )),
    decreases k,
{
    if k > 0 {
        lemma_best_step_is_edge(calls, cur, steps, k - 1);
        let e = calls[k - 1];
        if e.src == cur && !steps.contains(e.dst) {
            assert(calls[k - 1].src == cur && calls[k - 1].dst == e.dst);
        }
    }
}

proof fn lemma_chain_from_simple(calls: Seq<CallEdgeV>, c: Chain, fuel: nat)
    requires
        simple_chain(calls, c),
    ensures
        simple_chain(calls, chain_from(calls, c, fuel)),
        chain_from(calls, c, fuel).steps[0] == c.steps[0],
    decreases fuel,
{
    if fuel == 0 || c.steps.len() >= PROCESS_MAX_CHAIN || c.steps.len() == 0 {
    } else {
        let cur = c.steps.last();
        lemma_best_step_is_edge(calls, cur, c.steps, calls.len() as int);
        match best_step(calls, cur, c.steps, calls.len() as int) {
            None => {},
            Some((d, cf)) => {
                let c2 = Chain { steps: c.steps.push(d), confs: c.confs.push(cf) };
                assert forall|a: int, b: int| 0 <= a < b < c2.steps.len() implies #[trigger] c2.steps[a]
                    != #[trigger] c2.steps[b] by {
                    if b == c2.steps.len() - 1 {
                        assert(c.steps[a] == c2.steps[a]);
                        assert(!c.steps.contains(d));
                    } else {
                        assert(c.steps[a] == c2.steps[a]);
                        assert(c.steps[b] == c2.steps[b]);
                    }
                }
                assert forall|a: int| 0 <= a < c2.steps.len() - 1 implies #[trigger] calls_edge(
                    calls,
                    c2.steps[a],
                    c2.steps[a + 1],
                ) by {
                    if a == c2.steps.len() - 2 {
                        assert(c2.steps[a] == cur);
                        assert(c2.steps[a + 1] == d);
                    } else {
                        assert(c2.steps[a] == c.steps[a]);
                        assert(c2.steps[a + 1] == c.steps[a + 1]);
                        assert(calls_edge(calls, c.steps[a], c.steps[a + 1]));
                    }
                }
                assert(c2.steps.len() >= 1 && c2.steps.len() <= PROCESS_MAX_CHAIN);
                assert(forall|a: int, b: int| 0 <= a < b < c2.steps.len() ==> #[trigger] c2.steps[a] != #[trigger] c2.steps[b]);
                assert(simple_chain(calls, c2));
                lemma_chain_from_simple(calls, c2, (fuel - 1) as nat);
                assert(c2.steps[0] == c.steps[0]);
            },
        }
    }
}

proof fn lemma_processes_from(calls: Seq<CallEdgeV>, eps: Seq<Seq<char>>, i: int)
    requires
        0 <= i < processes_from(calls, eps).len(),
        forall|k: int| 0 <= k < eps.len() ==> is_entrypoint(calls, #[trigger] eps[k]),
    ensures
        ({
            let p = processes_from(calls, eps)[i];
            &&& p.steps.len() >= PROCESS_MIN_LEN
            &&& p.steps[0] == p.entrypoint
            &&& is_entrypoint(calls, p.entrypoint)
            &&& simple_chain(calls, Chain { steps: p.steps, confs: Seq::empty() })
        }),
    decreases eps.len(),
{
    let prev = processes_from(calls, eps.drop_last());
    assert forall|k: int| 0 <= k < eps.drop_last().len() implies is_entrypoint(
        calls,
        #[trigger] eps.drop_last()[k],
    ) by {
        assert(eps.drop_last()[k] == eps[k]);
    }
    if i < prev.len() {
        lemma_processes_from(calls, eps.drop_last(), i);
    } else {
        let ep = eps.last();
        let c0 = Chain { steps: seq![ep], confs: Seq::empty() };
        assert(simple_chain(calls, c0));
        lemma_chain_from_simple(calls, c0, PROCESS_MAX_CHAIN as nat);
        assert(eps[eps.len() - 1] == ep);
        let c = chain_of(calls, ep);
        assert(c.steps.len() >= PROCESS_MIN_LEN);
        let p = ProcessV { entrypoint: ep, steps: c.steps, conf: aggregate_conf_spec(c.confs) };
        assert(processes_from(calls, eps) == prev + seq![p]);
        assert(processes_from(calls, eps)[i] == p);
        assert(simple_chain(calls, Chain { steps: p.steps, confs: Seq::empty() }));
    }
}


// ------------------------------------------------------- process confidence ---

/// Some `calls` edge from `x` to `y` has confidence `cf`.
pub open spec fn edge_with_conf(calls: Seq<CallEdgeV>, x: Seq<char>, y: Seq<char>, cf: Seq<char>) -> bool {
    exists|k: int| 0 <= k < calls.len() && #[trigger] calls[k].src == x && calls[k].dst == y && calls[k].conf == cf
}

/// Every `calls` edge from `x` to `y` is strong.
pub open spec fn only_strong_edges(calls: Seq<CallEdgeV>, x: Seq<char>, y: Seq<char>) -> bool {
    forall|k: int| 0 <= k < calls.len() && #[trigger] calls[k].src == x && calls[k].dst == y ==> calls[k].conf == "strong"@
}

/// Each recorded confidence is that of an edge from one step to the next.
pub open spec fn confs_follow_edges(calls: Seq<CallEdgeV>, c: Chain) -> bool {
    &&& c.confs.len() + 1 == c.steps.len()
    &&& forall|a: int| 0 <= a < c.confs.len() ==> #[trigger] edge_with_conf(calls, c.steps[a], c.steps[a + 1], c.confs[a])
}

proof fn lemma_best_step_conf(calls: Seq<CallEdgeV>, cur: Seq<char>, steps: Seq<Seq<char>>, k: int)
    requires
        k <= calls.len(),
    ensures
        best_step(calls, cur, steps, k) matches Some(p) ==> edge_with_conf(calls, cur, p.0, p.1),
    decreases k,
{
    if k > 0 {
        lemma_best_step_conf(calls, cur, steps, k - 1);
        let e = calls[k - 1];
        if e.src == cur && !steps.contains(e.dst) {
            assert(calls[k - 1].src == cur && calls[k - 1].dst == e.dst && calls[k - 1].conf == e.conf);
        }
    }
}

proof fn lemma_chain_confs(calls: Seq<CallEdgeV>, c: Chain, fuel: nat)
    requires
        confs_follow_edges(calls, c),
    ensures
        confs_follow_edges(calls, chain_from(calls, c, fuel)),
    decreases fuel,
{
    if fuel == 0 || c.steps.len() >= PROCESS_MAX_CHAIN || c.steps.len() == 0 {
    } else {
        let cur = c.steps.last();
        lemma_best_step_conf(calls, cur, c.steps, calls.len() as int);
        match best_step(calls, cur, c.steps, calls.len() as int) {
            None => {},
            Some((d, cf)) => {
                let c2 = Chain { steps: c.steps.push(d), confs: c.confs.push(cf) };
                assert forall|a: int| 0 <= a < c2.confs.len() implies #[trigger] edge_with_conf(
                    calls,
                    c2.steps[a],
                    c2.steps[a + 1],
                    c2.confs[a],
                ) by {
                    if a == c.confs.len() {
                        assert(c2.steps[a] == cur);
                        assert(c2.steps[a + 1] == d);
                        assert(c2.confs[a] == cf);
                    } else {
                        assert(c2.steps[a] == c.steps[a]);
                        assert(c2.steps[a + 1] == c.steps[a + 1]);
                        assert(c2.confs[a] == c.confs[a]);
                        assert(edge_with_conf(calls, c.steps[a], c.steps[a + 1], c.confs[a]));
                    }
                }
                lemma_chain_confs(calls, c2, (fuel - 1) as nat);
            },
        }
    }
}

/// The chain a process was made from.
proof fn lemma_process_chain(calls: Seq<CallEdgeV>, eps: Seq<Seq<char>>, i: int) -> (ep: Seq<char>)
    requires
        0 <= i < processes_from(calls, eps).len(),
    ensures
        processes_from(calls, eps)[i].steps == chain_of(calls, ep).steps,
        processes_from(calls, eps)[i].conf == aggregate_conf_spec(chain_of(calls, ep).confs),
    decreases eps.len(),
{
    let prev = processes_from(calls, eps.drop_last());
    if i < prev.len() {
        let ep = lemma_process_chain(calls, eps.drop_last(), i);
        assert(processes_from(calls, eps)[i] == prev[i]);
        ep
    } else {
        let ep = eps.last();
        assert(processes_from(calls, eps)[i] == processes_from(calls, eps)[prev.len() as int]);
        ep
    }
}

/// A process is strong only along strong calls: when its confidence is
/// `strong`, each step reaches the next through a strong call; when every
/// call between consecutive steps is strong, so is the process; and the
/// confidence is always `strong` or `weak`.
pub proof fn lemma_process_conf_follows_its_calls(ids: Seq<Seq<char>>, calls: Seq<CallEdgeV>, i: int)
    requires
        0 <= i < processes_spec(ids, calls).len(),
    ensures
        processes_spec(ids, calls)[i].conf == "strong"@ || processes_spec(ids, calls)[i].conf == "weak"@,
        processes_spec(ids, calls)[i].conf == "strong"@ ==> forall|a: int|
            0 <= a < processes_spec(ids, calls)[i].steps.len() - 1 ==> #[trigger] edge_with_conf(
                calls,
                processes_spec(ids, calls)[i].steps[a],
                processes_spec(ids, calls)[i].steps[a + 1],
                "strong"@,
            ),
        (forall|a: int|
            0 <= a < processes_spec(ids, calls)[i].steps.len() - 1 ==> #[trigger] only_strong_edges(
                calls,
                processes_spec(ids, calls)[i].steps[a],
                processes_spec(ids, calls)[i].steps[a + 1],
            )) ==> processes_spec(ids, calls)[i].conf == "strong"@,
{
    let eps = entrypoints(ids, calls);
    let ep = lemma_process_chain(calls, eps, i);
    let c = chain_of(calls, ep);
    let c0 = Chain { steps: seq![ep], confs: Seq::empty() };
    assert(confs_follow_edges(calls, c0));
    lemma_chain_confs(calls, c0, PROCESS_MAX_CHAIN as nat);
    let p = processes_spec(ids, calls)[i];
    assert(p.steps == c.steps);
    if p.conf == "strong"@ {
        reveal_strlit("strong");
        reveal_strlit("weak");
        assert("strong"@ != "weak"@) by {
            assert("strong"@.len() != "weak"@.len());
        }
        assert(all_strong(c.confs));
        assert forall|a: int| 0 <= a < p.steps.len() - 1 implies #[trigger] edge_with_conf(
            calls,
            p.steps[a],
            p.steps[a + 1],
            "strong"@,
        ) by {
            assert(edge_with_conf(calls, c.steps[a], c.steps[a + 1], c.confs[a]));
            assert(c.confs[a] == "strong"@);
        }
    }
    if forall|a: int| 0 <= a < p.steps.len() - 1 ==> #[trigger] only_strong_edges(calls, p.steps[a], p.steps[a + 1]) {
        assert forall|a: int| 0 <= a < c.confs.len() implies #[trigger] c.confs[a] == "strong"@ by {
            assert(edge_with_conf(calls, c.steps[a], c.steps[a + 1], c.confs[a]));
            let k = choose|k: int|
                0 <= k < calls.len() && #[trigger] calls[k].src == c.steps[a] && calls[k].dst == c.steps[a + 1]
                    && calls[k].conf == c.confs[a];
            assert(only_strong_edges(calls, p.steps[a], p.steps[a + 1]));
        }
    }
}


// ------------------------------------------------------------ process steps ---

proof fn lemma_pair_trans(a: (Seq<char>, Seq<char>), b: (Seq<char>, Seq<char>), c: (Seq<char>, Seq<char>))
    requires
        pair_lt(a, b),
        pair_lt(b, c),
    ensures
        pair_lt(a, c),
{
    if lex_lt(a.0, b.0) && lex_lt(b.0, c.0) {
        crate::group::lemma_lex_trans(a.0, b.0, c.0);
    } else if a.0 == b.0 && b.0 == c.0 && lex_lt(a.1, b.1) && lex_lt(b.1, c.1) {
        crate::group::lemma_lex_trans(a.1, b.1, c.1);
    }
}

/// Can the chain at `cur` (having visited `steps`) go on along call `j`?
pub open spec fn open_call(calls: Seq<CallEdgeV>, cur: Seq<char>, steps: Seq<Seq<char>>, j: int) -> bool {
    calls[j].src == cur && !steps.contains(calls[j].dst)
}

proof fn lemma_best_step_least(calls: Seq<CallEdgeV>, cur: Seq<char>, steps: Seq<Seq<char>>, k: int)
    requires
        k <= calls.len(),
    ensures
        best_step(calls, cur, steps, k) is None ==> forall|j: int| 0 <= j < k ==> !#[trigger] open_call(calls, cur, steps, j),
        best_step(calls, cur, steps, k) matches Some(p) ==> forall|j: int|
            0 <= j < k && #[trigger] open_call(calls, cur, steps, j) ==> !pair_lt((calls[j].dst, calls[j].conf), p),
    decreases k,
{
    if k > 0 {
        lemma_best_step_least(calls, cur, steps, k - 1);
        let b = best_step(calls, cur, steps, k - 1);
        let e = calls[k - 1];
        if e.src == cur && !steps.contains(e.dst) {
            match b {
                None => {
                    crate::group::lemma_lex_irreflexive(e.dst);
                    crate::group::lemma_lex_irreflexive(e.conf);
                },
                Some(p) => {
                    if pair_lt((e.dst, e.conf), p) {
                        assert forall|j: int| 0 <= j < k && #[trigger] open_call(calls, cur, steps, j) implies !pair_lt(
                            (calls[j].dst, calls[j].conf),
                            (e.dst, e.conf),
                        ) by {
                            if j < k - 1 {
                                if pair_lt((calls[j].dst, calls[j].conf), (e.dst, e.conf)) {
                                    lemma_pair_trans((calls[j].dst, calls[j].conf), (e.dst, e.conf), p);
                                }
                            } else {
                                crate::group::lemma_lex_irreflexive(e.dst);
                                crate::group::lemma_lex_irreflexive(e.conf);
                            }
                        }
                    }
                },
            }
        }
    }
}

/// Each step after the first is the least (by id) callee of the step before
/// that is not already on the chain.
pub open spec fn least_steps(calls: Seq<CallEdgeV>, steps: Seq<Seq<char>>) -> bool {
    forall|a: int, j: int|
        0 <= a < steps.len() - 1 && 0 <= j < calls.len() && #[trigger] open_call(calls, steps[a], steps.take(a + 1), j)
            ==> !lex_lt(calls[j].dst, steps[a + 1])
}

proof fn lemma_chain_least(calls: Seq<CallEdgeV>, c: Chain, fuel: nat)
    requires
        least_steps(calls, c.steps),
        c.steps.len() >= 1,
        fuel + c.steps.len() == PROCESS_MAX_CHAIN + 1,
    ensures
        least_steps(calls, chain_from(calls, c, fuel).steps),
        chain_from(calls, c, fuel).steps.len() < PROCESS_MAX_CHAIN ==> forall|j: int|
            0 <= j < calls.len() ==> !#[trigger] open_call(
                calls,
                chain_from(calls, c, fuel).steps.last(),
                chain_from(calls, c, fuel).steps,
                j,
            ),
    decreases fuel,
{
    if fuel == 0 || c.steps.len() >= PROCESS_MAX_CHAIN || c.steps.len() == 0 {
    } else {
        let cur = c.steps.last();
        lemma_best_step_least(calls, cur, c.steps, calls.len() as int);
        match best_step(calls, cur, c.steps, calls.len() as int) {
            None => {},
            Some((d, cf)) => {
                let c2 = Chain { steps: c.steps.push(d), confs: c.confs.push(cf) };
                assert forall|a: int, j: int|
                    0 <= a < c2.steps.len() - 1 && 0 <= j < calls.len() && #[trigger] open_call(
                        calls,
                        c2.steps[a],
                        c2.steps.take(a + 1),
                        j,
                    ) implies !lex_lt(calls[j].dst, c2.steps[a + 1]) by {
                    assert(c2.steps.take(a + 1) =~= c.steps.take(a + 1));
                    assert(c2.steps[a] == c.steps[a]);
                    if a == c.steps.len() - 1 {
                        assert(c.steps.take(a + 1) =~= c.steps);
                        assert(c2.steps[a + 1] == d);
                        assert(open_call(calls, cur, c.steps, j));
                        assert(!pair_lt((calls[j].dst, calls[j].conf), (d, cf)));
                    } else {
                        assert(c2.steps[a + 1] == c.steps[a + 1]);
                        assert(open_call(calls, c.steps[a], c.steps.take(a + 1), j));
                    }
                }
                lemma_chain_least(calls, c2, (fuel - 1) as nat);
            },
        }
    }
}

/// A process follows its least callees: each step is the least (by id)
/// callee of the step before that is not yet on the chain, and a process
/// shorter than `PROCESS_MAX_CHAIN` ends where no call leads off the chain.
pub proof fn lemma_process_follows_least_callees(ids: Seq<Seq<char>>, calls: Seq<CallEdgeV>, i: int)
    requires
        0 <= i < processes_spec(ids, calls).len(),
    ensures
        forall|a: int, j: int|
            0 <= a < processes_spec(ids, calls)[i].steps.len() - 1 && 0 <= j < calls.len()
                && calls[j].src == processes_spec(ids, calls)[i].steps[a]
                && !#[trigger] processes_spec(ids, calls)[i].steps.take(a + 1).contains(calls[j].dst)
                ==> !lex_lt(calls[j].dst, processes_spec(ids, calls)[i].steps[a + 1]),
        processes_spec(ids, calls)[i].steps.len() < PROCESS_MAX_CHAIN ==> forall|j: int|
            0 <= j < calls.len() && #[trigger] calls[j].src == processes_spec(ids, calls)[i].steps.last()
                ==> processes_spec(ids, calls)[i].steps.contains(calls[j].dst),
{
    let eps = entrypoints(ids, calls);
    let ep = lemma_process_chain(calls, eps, i);
    let c0 = Chain { steps: seq![ep], confs: Seq::empty() };
    lemma_chain_least(calls, c0, PROCESS_MAX_CHAIN as nat);
    let p = processes_spec(ids, calls)[i];
    let st = chain_of(calls, ep).steps;
    assert(p.steps == st);
    assert forall|a: int, j: int|
        0 <= a < p.steps.len() - 1 && 0 <= j < calls.len() && calls[j].src == p.steps[a]
            && !#[trigger] p.steps.take(a + 1).contains(calls[j].dst) implies !lex_lt(calls[j].dst, p.steps[a + 1]) by {
        assert(open_call(calls, st[a], st.take(a + 1), j));
    }
    if p.steps.len() < PROCESS_MAX_CHAIN {
        assert forall|j: int| 0 <= j < calls.len() && #[trigger] calls[j].src == p.steps.last() implies p.steps.contains(
            calls[j].dst,
        ) by {
            assert(!open_call(calls, st.last(), st, j));
        }
    }
}

proof fn lemma_chain_from_keeps(calls: Seq<CallEdgeV>, c: Chain, fuel: nat)
    ensures
        chain_from(calls, c, fuel).steps.len() >= c.steps.len(),
    decreases fuel,
{
    if fuel == 0 || c.steps.len() >= PROCESS_MAX_CHAIN || c.steps.len() == 0 {
    } else {
        match best_step(calls, c.steps.last(), c.steps, calls.len() as int) {
            None => {},
            Some((d, cf)) => {
                lemma_chain_from_keeps(
                    calls,
                    Chain { steps: c.steps.push(d), confs: c.confs.push(cf) },
                    (fuel - 1) as nat,
                );
            },
        }
    }
}

/// An entrypoint calls something other than itself, so its chain has a
/// second step.
proof fn lemma_entry_chain_long(calls: Seq<CallEdgeV>, ep: Seq<char>)
    requires
        is_entrypoint(calls, ep),
    ensures
        chain_of(calls, ep).steps.len() >= PROCESS_MIN_LEN,
{
    let c0 = Chain { steps: seq![ep], confs: Seq::empty() };
    let k = choose|k: int| 0 <= k < calls.len() && #[trigger] calls[k].src == ep;
    assert(calls[k].dst != ep);
    assert(!c0.steps.contains(calls[k].dst)) by {
        if c0.steps.contains(calls[k].dst) {
            let t = choose|t: int| 0 <= t < c0.steps.len() && c0.steps[t] == calls[k].dst;
            assert(t == 0);
        }
    }
    assert(c0.steps.last() == ep);
    assert(open_call(calls, ep, c0.steps, k));
    lemma_best_step_least(calls, ep, c0.steps, calls.len() as int);
    match best_step(calls, ep, c0.steps, calls.len() as int) {
        None => {
            assert(!open_call(calls, ep, c0.steps, k));
        },
        Some((d, cf)) => {
            let c1 = Chain { steps: c0.steps.push(d), confs: c0.confs.push(cf) };
            assert(chain_of(calls, ep) == chain_from(calls, c1, (PROCESS_MAX_CHAIN - 1) as nat));
            lemma_chain_from_keeps(calls, c1, (PROCESS_MAX_CHAIN - 1) as nat);
        },
    }
}

proof fn lemma_processes_from_heads(calls: Seq<CallEdgeV>, eps: Seq<Seq<char>>, q: int)
    requires
        0 <= q < eps.len(),
        chain_of(calls, eps[q]).steps.len() >= PROCESS_MIN_LEN,
    ensures
        exists|i: int|
            0 <= i < processes_from(calls, eps).len() && (#[trigger] processes_from(calls, eps)[i]).entrypoint
                == eps[q],
    decreases eps.len(),
{
    let prev = processes_from(calls, eps.drop_last());
    if q == eps.len() - 1 {
        let i = prev.len() as int;
        assert(processes_from(calls, eps)[i].entrypoint == eps.last());
    } else {
        assert(eps.drop_last()[q] == eps[q]);
        lemma_processes_from_heads(calls, eps.drop_last(), q);
        let i = choose|i: int| 0 <= i < prev.len() && (#[trigger] prev[i]).entrypoint == eps[q];
        assert(processes_from(calls, eps)[i] == prev[i]);
    }
}

/// Every entrypoint heads a process: each symbol that calls something and
/// is called by nothing, among the first `PROCESS_MAX_COUNT` such symbols
/// in id order, is the entrypoint of some process.
pub proof fn lemma_every_entrypoint_heads_a_process(ids: Seq<Seq<char>>, calls: Seq<CallEdgeV>, e: int)
    requires
        0 <= e < ids.len(),
        is_entrypoint(calls, ids[e]),
        ids.take(e).filter(|id: Seq<char>| is_entrypoint(calls, id)).len() < PROCESS_MAX_COUNT,
    ensures
        exists|i: int|
            0 <= i < processes_spec(ids, calls).len() && (#[trigger] processes_spec(ids, calls)[i]).entrypoint
                == ids[e],
{
    let p = |id: Seq<char>| is_entrypoint(calls, id);
    let all = ids.filter(p);
    let pre = ids.take(e);
    let upto = ids.take(e + 1);
    let t = pre.filter(p).len() as int;
    assert(calls.len() > 0);
    reveal(Seq::filter);
    assert(upto.drop_last() =~= pre);
    assert(upto.last() == ids[e]);
    assert(upto.filter(p) == pre.filter(p).push(ids[e]));
    assert(ids =~= upto + ids.skip(e + 1));
    Seq::filter_distributes_over_add(upto, ids.skip(e + 1), p);
    assert(all == upto.filter(p) + ids.skip(e + 1).filter(p));
    assert(all[t] == ids[e]);
    let eps = entrypoints(ids, calls);
    assert(eps[t] == ids[e]);
    lemma_entry_chain_long(calls, ids[e]);
    lemma_processes_from_heads(calls, eps, t);
    let ps = processes_from(calls, eps);
    let i = choose|i: int| 0 <= i < ps.len() && (#[trigger] ps[i]).entrypoint == eps[t];
    assert(processes_spec(ids, calls) == ps);
    assert(processes_spec(ids, calls)[i].entrypoint == ids[e]);
}

/// Each recorded confidence is the least (in string order) of the calls
/// from one step to the next.
pub open spec fn least_confs(calls: Seq<CallEdgeV>, c: Chain) -> bool {
    forall|a: int, j: int|
        #![trigger c.confs[a], calls[j]]
        0 <= a < c.confs.len() && 0 <= j < calls.len() && calls[j].src == c.steps[a] && calls[j].dst
            == c.steps[a + 1] ==> !lex_lt(calls[j].conf, c.confs[a])
}

proof fn lemma_chain_least_confs(calls: Seq<CallEdgeV>, c: Chain, fuel: nat)
    requires
        confs_follow_edges(calls, c),
        least_confs(calls, c),
    ensures
        least_confs(calls, chain_from(calls, c, fuel)),
    decreases fuel,
{
    if fuel == 0 || c.steps.len() >= PROCESS_MAX_CHAIN || c.steps.len() == 0 {
    } else {
        let cur = c.steps.last();
        lemma_best_step_conf(calls, cur, c.steps, calls.len() as int);
        lemma_best_step_is_edge(calls, cur, c.steps, calls.len() as int);
        lemma_best_step_least(calls, cur, c.steps, calls.len() as int);
        match best_step(calls, cur, c.steps, calls.len() as int) {
            None => {},
            Some((d, cf)) => {
                let c2 = Chain { steps: c.steps.push(d), confs: c.confs.push(cf) };
                assert forall|a: int, j: int|
                    #![trigger c2.confs[a], calls[j]]
                    0 <= a < c2.confs.len() && 0 <= j < calls.len() && calls[j].src == c2.steps[a] && calls[j].dst
                        == c2.steps[a + 1] implies !lex_lt(calls[j].conf, c2.confs[a]) by {
                    if a == c.confs.len() {
                        assert(c2.steps[a] == cur);
                        assert(c2.steps[a + 1] == d);
                        assert(c2.confs[a] == cf);
                        assert(open_call(calls, cur, c.steps, j));
                        assert(!pair_lt((calls[j].dst, calls[j].conf), (d, cf)));
                        crate::group::lemma_lex_irreflexive(d);
                    } else {
                        assert(c2.steps[a] == c.steps[a]);
                        assert(c2.steps[a + 1] == c.steps[a + 1]);
                        assert(c2.confs[a] == c.confs[a]);
                        assert(c.confs[a] == c.confs[a] && calls[j] == calls[j]);
                    }
                }
                assert(confs_follow_edges(calls, c2)) by {
                    lemma_chain_confs(calls, c, 1);
                    assert(chain_from(calls, c, 1) == chain_from(calls, c2, 0));
                }
                lemma_chain_least_confs(calls, c2, (fuel - 1) as nat);
            },
        }
    }
}

/// Between two steps the process records the least confidence among the
/// calls joining them, so a process is `strong` exactly when each step
/// reaches the next through a strong call and no call joining them has a
/// confidence ordered before `strong`.
pub proof fn lemma_process_strong_iff_its_steps_are(ids: Seq<Seq<char>>, calls: Seq<CallEdgeV>, i: int)
    requires
        0 <= i < processes_spec(ids, calls).len(),
    ensures
        processes_spec(ids, calls)[i].conf == "strong"@ <==> forall|a: int|
            #![trigger processes_spec(ids, calls)[i].steps[a]]
            0 <= a < processes_spec(ids, calls)[i].steps.len() - 1 ==> {
                &&& edge_with_conf(
                    calls,
                    processes_spec(ids, calls)[i].steps[a],
                    processes_spec(ids, calls)[i].steps[a + 1],
                    "strong"@,
                )
                &&& forall|j: int|
                    0 <= j < calls.len() && #[trigger] calls[j].src == processes_spec(ids, calls)[i].steps[a]
                        && calls[j].dst == processes_spec(ids, calls)[i].steps[a + 1] ==> !lex_lt(
                        calls[j].conf,
                        "strong"@,
                    )
            },
{
    let eps = entrypoints(ids, calls);
    let ep = lemma_process_chain(calls, eps, i);
    let c = chain_of(calls, ep);
    let c0 = Chain { steps: seq![ep], confs: Seq::empty() };
    assert(confs_follow_edges(calls, c0));
    lemma_chain_confs(calls, c0, PROCESS_MAX_CHAIN as nat);
    lemma_chain_least_confs(calls, c0, PROCESS_MAX_CHAIN as nat);
    let p = processes_spec(ids, calls)[i];
    assert(p.steps == c.steps);
    reveal_strlit("strong");
    reveal_strlit("weak");
    assert("strong"@ != "weak"@) by {
        assert("strong"@.len() != "weak"@.len());
    }
    if p.conf == "strong"@ {
        assert(all_strong(c.confs));
        assert forall|a: int|
            #![trigger p.steps[a]]
            0 <= a < p.steps.len() - 1 implies {
            &&& edge_with_conf(calls, p.steps[a], p.steps[a + 1], "strong"@)
            &&& forall|j: int|
                0 <= j < calls.len() && #[trigger] calls[j].src == p.steps[a] && calls[j].dst == p.steps[a + 1]
                    ==> !lex_lt(calls[j].conf, "strong"@)
        } by {
            assert(edge_with_conf(calls, c.steps[a], c.steps[a + 1], c.confs[a]));
            assert(c.confs[a] == "strong"@);
            assert forall|j: int|
                0 <= j < calls.len() && #[trigger] calls[j].src == p.steps[a] && calls[j].dst == p.steps[a + 1] implies !lex_lt(
                calls[j].conf,
                "strong"@,
            ) by {
                assert(c.confs[a] == c.confs[a] && calls[j] == calls[j]);
            }
        }
    }
    if forall|a: int|
        #![trigger p.steps[a]]
        0 <= a < p.steps.len() - 1 ==> {
            &&& edge_with_conf(calls, p.steps[a], p.steps[a + 1], "strong"@)
            &&& forall|j: int|
                0 <= j < calls.len() && #[trigger] calls[j].src == p.steps[a] && calls[j].dst == p.steps[a + 1]
                    ==> !lex_lt(calls[j].conf, "strong"@)
        } {
        assert forall|a: int| 0 <= a < c.confs.len() implies #[trigger] c.confs[a] == "strong"@ by {
            assert(p.steps[a] == c.steps[a]);
            assert(edge_with_conf(calls, c.steps[a], c.steps[a + 1], c.confs[a]));
            let k0 = choose|k: int|
                0 <= k < calls.len() && #[trigger] calls[k].src == c.steps[a] && calls[k].dst == c.steps[a + 1]
                    && calls[k].conf == c.confs[a];
            assert(edge_with_conf(calls, p.steps[a], p.steps[a + 1], "strong"@));
            let k1 = choose|k: int|
                0 <= k < calls.len() && #[trigger] calls[k].src == p.steps[a] && calls[k].dst == p.steps[a + 1]
                    && calls[k].conf == "strong"@;
            assert(!lex_lt(calls[k0].conf, "strong"@));
            assert(c.confs[a] == c.confs[a] && calls[k1] == calls[k1]);
            assert(!lex_lt(calls[k1].conf, c.confs[a]));
            crate::group::lemma_lex_total(c.confs[a], "strong"@);
        }
        assert(all_strong(c.confs));
    }
}

proof fn lemma_filter_in_order(s: Seq<Seq<char>>, p: spec_fn(Seq<char>) -> bool)
    requires
        forall|i: int, j: int| 0 <= i < j < s.len() ==> lex_lt(#[trigger] s[i], #[trigger] s[j]),
    ensures
        forall|i: int, j: int|
            0 <= i < j < s.filter(p).len() ==> lex_lt(#[trigger] s.filter(p)[i], #[trigger] s.filter(p)[j]),
    decreases s.len(),
{
    reveal(Seq::filter);
    if s.len() > 0 {
        let t = s.drop_last();
        assert forall|i: int, j: int| 0 <= i < j < t.len() implies lex_lt(#[trigger] t[i], #[trigger] t[j]) by {
            assert(t[i] == s[i] && t[j] == s[j]);
        }
        lemma_filter_in_order(t, p);
        let rest = t.filter(p);
        if p(s.last()) {
            let f = s.filter(p);
            assert(f == rest.push(s.last()));
            assert forall|i: int, j: int| 0 <= i < j < f.len() implies lex_lt(#[trigger] f[i], #[trigger] f[j]) by {
                if j < rest.len() {
                    assert(f[i] == rest[i] && f[j] == rest[j]);
                } else {
                    assert(rest.contains(rest[i]));
                    t.lemma_filter_contains_rev(p, rest[i]);
                    let k = choose|k: int| 0 <= k < t.len() && t[k] == rest[i];
                    assert(s[k] == t[k]);
                    assert(lex_lt(s[k], s[s.len() - 1]));
                    assert(f[i] == rest[i]);
                }
            }
        }
    }
}

proof fn lemma_processes_from_order(calls: Seq<CallEdgeV>, eps: Seq<Seq<char>>)
    requires
        forall|i: int, j: int| 0 <= i < j < eps.len() ==> lex_lt(#[trigger] eps[i], #[trigger] eps[j]),
    ensures
        processes_from(calls, eps).len() <= eps.len(),
        forall|i: int|
            0 <= i < processes_from(calls, eps).len() ==> exists|q: int|
                0 <= q < eps.len() && #[trigger] processes_from(calls, eps)[i].entrypoint == eps[q],
        forall|i: int, j: int|
            0 <= i < j < processes_from(calls, eps).len() ==> lex_lt(
                #[trigger] processes_from(calls, eps)[i].entrypoint,
                #[trigger] processes_from(calls, eps)[j].entrypoint,
            ),
    decreases eps.len(),
{
    if eps.len() > 0 {
        let t = eps.drop_last();
        assert forall|i: int, j: int| 0 <= i < j < t.len() implies lex_lt(#[trigger] t[i], #[trigger] t[j]) by {
            assert(t[i] == eps[i] && t[j] == eps[j]);
        }
        lemma_processes_from_order(calls, t);
        let prev = processes_from(calls, t);
        let ps = processes_from(calls, eps);
        assert forall|i: int| 0 <= i < prev.len() implies #[trigger] ps[i] == prev[i] by {}
        assert forall|i: int| 0 <= i < ps.len() implies exists|q: int|
            0 <= q < eps.len() && #[trigger] ps[i].entrypoint == eps[q] by {
            if i < prev.len() {
                assert(ps[i] == prev[i]);
                let q = choose|q: int| 0 <= q < t.len() && #[trigger] prev[i].entrypoint == t[q];
                assert(t[q] == eps[q]);
            } else {
                assert(ps[i].entrypoint == eps[eps.len() - 1]);
            }
        }
        assert forall|i: int, j: int| 0 <= i < j < ps.len() implies lex_lt(
            #[trigger] ps[i].entrypoint,
            #[trigger] ps[j].entrypoint,
        ) by {
            assert(ps[i] == prev[i]);
            if j < prev.len() {
                assert(ps[j] == prev[j]);
            } else {
                let q = choose|q: int| 0 <= q < t.len() && #[trigger] prev[i].entrypoint == t[q];
                assert(t[q] == eps[q]);
                assert(ps[j].entrypoint == eps[eps.len() - 1]);
            }
        }
    }
}

/// Processes come in the id order of their entrypoints, one per entrypoint,
/// and there are at most `PROCESS_MAX_COUNT` of them.
pub proof fn lemma_processes_in_entrypoint_order(ids: Seq<Seq<char>>, calls: Seq<CallEdgeV>)
    requires
        forall|i: int, j: int| 0 <= i < j < ids.len() ==> lex_lt(#[trigger] ids[i], #[trigger] ids[j]),
    ensures
        processes_spec(ids, calls).len() <= PROCESS_MAX_COUNT,
        forall|i: int, j: int|
            0 <= i < j < processes_spec(ids, calls).len() ==> lex_lt(
                #[trigger] processes_spec(ids, calls)[i].entrypoint,
                #[trigger] processes_spec(ids, calls)[j].entrypoint,
            ),
{
    if ids.len() > 0 && calls.len() > 0 {
        let p = |id: Seq<char>| is_entrypoint(calls, id);
        let all = ids.filter(p);
        lemma_filter_in_order(ids, p);
        let eps = entrypoints(ids, calls);
        assert forall|i: int, j: int| 0 <= i < j < eps.len() implies lex_lt(#[trigger] eps[i], #[trigger] eps[j]) by {
            assert(eps[i] == all[i] && eps[j] == all[j]);
        }
        lemma_processes_from_order(calls, eps);
    }
}

} // verus!
