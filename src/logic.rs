//! The trigger-graph interpreter: blueprints of nodes and connections, run
//! depth first from every node whose type names the trigger, under a step
//! ceiling that is the only guard against cycles.
use vstd::prelude::*;
use crate::value::{owned, str_eq, PropMap, Value, ValueModel};

verus! {

/// The default step ceiling.
pub const DEFAULT_MAX_STEPS: usize = 1000;

/// One node of a blueprint: its id, its type tag, and its data fields.
#[derive(Debug)]
pub struct UnifiedNode {
    pub id: String,
    pub node_type: String,
    pub data: PropMap,
}

/// A connection from one node to another, through an optional named port.
#[derive(Debug)]
pub struct UnifiedConnection {
    pub id: String,
    pub from_id: String,
    pub to_id: String,
    pub port: Option<String>,
}

/// A user-authored trigger graph.
#[derive(Debug)]
pub struct UnifiedBlueprint {
    pub id: String,
    pub nodes: Vec<UnifiedNode>,
    pub connections: Vec<UnifiedConnection>,
    pub variables: PropMap,
}

/// Why an execution did not complete.
#[derive(Debug, PartialEq, Eq, Structural)]
pub enum LogicError {
    /// No blueprint is registered under the id.
    NotFound,
    /// The step ceiling was reached; writes made before it stay.
    StepLimit,
}

pub open spec fn bp_wf(bp: UnifiedBlueprint) -> bool {
    &&& bp.nodes@.len() < usize::MAX
    &&& forall|i: int| 0 <= i < bp.nodes@.len() ==> (#[trigger] bp.nodes@[i]).data.wf()
}

/// The first node with id `id`.
pub open spec fn node_index(nodes: Seq<UnifiedNode>, id: Seq<char>) -> Option<int> {
    if exists|i: int| 0 <= i < nodes.len() && nodes[i].id@ == id {
        Some(
            choose|i: int|
                0 <= i < nodes.len() && nodes[i].id@ == id && forall|j: int|
                    0 <= j < i ==> nodes[j].id@ != id,
        )
    } else {
        None
    }
}

/// The port a connection leaves through; "default" when it names none.
pub open spec fn port_of(c: UnifiedConnection) -> Seq<char> {
    match c.port {
        Some(p) => p@,
        None => "default"@,
    }
}

/// The nodes reached from `from` through `port`, in connection order.
pub open spec fn targets(
    nodes: Seq<UnifiedNode>,
    conns: Seq<UnifiedConnection>,
    from: Seq<char>,
    port: Seq<char>,
) -> Seq<int>
    decreases conns.len(),
{
    if conns.len() == 0 {
        Seq::empty()
    } else {
        let prev = targets(nodes, conns.drop_last(), from, port);
        let c = conns.last();
        if c.from_id@ == from && port_of(c) == port && node_index(nodes, c.to_id@) is Some {
            prev.push(node_index(nodes, c.to_id@)->0)
        } else {
            prev
        }
    }
}

pub open spec fn value_or_null(m: Map<Seq<char>, ValueModel>, k: Seq<char>) -> ValueModel {
    if m.contains_key(k) {
        m[k]
    } else {
        ValueModel::Null
    }
}

pub open spec fn text_field(m: Map<Seq<char>, ValueModel>, k: Seq<char>) -> Option<Seq<char>> {
    if m.contains_key(k) && m[k] is Text {
        Some(m[k]->Text_0)
    } else {
        None
    }
}

/// The port a node selects: a condition picks "true" or "false" by comparing
/// its `left` and `right` under `operator` ("==" unless given; an unknown
/// operator is false); every other node goes on through "default".
pub open spec fn port_spec(node_type: Seq<char>, data: Map<Seq<char>, ValueModel>) -> Seq<char> {
    if node_type == "condition"@ {
        let left = value_or_null(data, "left"@);
        let right = value_or_null(data, "right"@);
        let op = match text_field(data, "operator"@) {
            Some(o) => o,
            None => "=="@,
        };
        let holds = if op == "=="@ {
            left == right
        } else if op == "!="@ {
            left != right
        } else {
            false
        };
        if holds {
            "true"@
        } else {
            "false"@
        }
    } else {
        "default"@
    }
}

/// The variable store after a node runs: a "set_var" node with a text
/// `varName` writes its `value` (null when absent) under that name.
pub open spec fn vars_after(
    node_type: Seq<char>,
    data: Map<Seq<char>, ValueModel>,
    vars: Map<Seq<char>, ValueModel>,
) -> Map<Seq<char>, ValueModel> {
    if node_type == "set_var"@ && text_field(data, "varName"@) is Some {
        vars.insert(text_field(data, "varName"@)->0, value_or_null(data, "value"@))
    } else {
        vars
    }
}

/// Every node but a variable write or a condition is an action for the host.
pub open spec fn is_action(node_type: Seq<char>) -> bool {
    node_type != "set_var"@ && node_type != "condition"@
}

/// The state of one execution: nodes still to visit (top last), variables,
/// steps taken, action events emitted, and whether the ceiling stopped it.
pub struct RunState {
    pub stack: Seq<int>,
    pub vars: Map<Seq<char>, ValueModel>,
    pub steps: nat,
    pub events: Seq<Seq<char>>,
    pub halted: bool,
}

/// One step: visit the node on top of the stack, or halt at the ceiling.
pub open spec fn step(bp: UnifiedBlueprint, st: RunState, max: nat) -> RunState {
    if st.halted || st.stack.len() == 0 {
        st
    } else if st.steps >= max {
        RunState { halted: true, ..st }
    } else {
        let i = st.stack.last();
        let n = bp.nodes@[i];
        let port = port_spec(n.node_type@, n.data@);
        let next = targets(bp.nodes@, bp.connections@, n.id@, port);
        RunState {
            stack: st.stack.drop_last() + next.reverse(),
            vars: vars_after(n.node_type@, n.data@, st.vars),
            steps: st.steps + 1,
            events: if is_action(n.node_type@) {
                st.events.push(n.node_type@)
            } else {
                st.events
            },
            halted: false,
        }
    }
}

/// `fuel` steps from `st`.
pub open spec fn run(bp: UnifiedBlueprint, st: RunState, max: nat, fuel: nat) -> RunState
    decreases fuel,
{
    if fuel == 0 {
        st
    } else {
        run(bp, step(bp, st, max), max, (fuel - 1) as nat)
    }
}

/// The indices below `k` of nodes whose type names the trigger, in order.
pub open spec fn matching_upto(nodes: Seq<UnifiedNode>, trigger: Seq<char>, k: int) -> Seq<int>
    decreases k,
{
    if k <= 0 {
        Seq::empty()
    } else {
        let prev = matching_upto(nodes, trigger, k - 1);
        if nodes[k - 1].node_type@ == trigger {
            prev.push(k - 1)
        } else {
            prev
        }
    }
}

/// The nodes whose type names the trigger, first one on top.
pub open spec fn roots(nodes: Seq<UnifiedNode>, trigger: Seq<char>) -> Seq<int> {
    matching_upto(nodes, trigger, nodes.len() as int).reverse()
}

/// The whole execution of a trigger: enough steps to reach the ceiling or run
/// out of nodes.
pub open spec fn execution(
    bp: UnifiedBlueprint,
    trigger: Seq<char>,
    vars: Map<Seq<char>, ValueModel>,
    max: nat,
) -> RunState {
    run(
        bp,
        RunState { stack: roots(bp.nodes@, trigger), vars, steps: 0, events: Seq::empty(), halted: false },
        max,
        max + 1,
    )
}

pub open spec fn ints(v: Seq<usize>) -> Seq<int> {
    v.map_values(|u: usize| u as int)
}

proof fn lemma_run_done(bp: UnifiedBlueprint, st: RunState, max: nat, fuel: nat)
    requires
        st.halted || st.stack.len() == 0,
    ensures
        run(bp, st, max, fuel) == st,
    decreases fuel,
{
    if fuel > 0 {
        lemma_run_done(bp, st, max, (fuel - 1) as nat);
    }
}

/// The port `node` leaves through after it runs.
pub fn next_port(node: &UnifiedNode) -> (r: String)
    requires
        node.data.wf(),
    ensures
        r@ == port_spec(node.node_type@, node.data@),
{
    if !str_eq(node.node_type.as_str(), "condition") {
        return owned("default");
    }
    let null = Value::Null;
    let left = match node.data.get("left") {
        Some(v) => v,
        None => &null,
    };
    let right = match node.data.get("right") {
        Some(v) => v,
        None => &null,
    };
    let op = match node.data.get("operator") {
        Some(v) => match v.as_text() {
            Some(s) => s.as_str(),
            None => "==",
        },
        None => "==",
    };
    let holds = if str_eq(op, "==") {
        left.equals(right)
    } else if str_eq(op, "!=") {
        !left.equals(right)
    } else {
        false
    };
    if holds {
        owned("true")
    } else {
        owned("false")
    }
}

fn find_node(nodes: &Vec<UnifiedNode>, id: &str) -> (r: Option<usize>)
    ensures
        r matches Some(i) ==> node_index(nodes@, id@) == Some(i as int) && i < nodes@.len(),
        r is None ==> node_index(nodes@, id@) is None,
{
    let mut i: usize = 0;
    while i < nodes.len()
        invariant
            i <= nodes@.len(),
            forall|j: int| 0 <= j < i ==> nodes@[j].id@ != id@,
        decreases nodes@.len() - i,
    {
        if str_eq(nodes[i].id.as_str(), id) {
            proof {
                let c = choose|c: int|
                    0 <= c < nodes@.len() && nodes@[c].id@ == id@ && forall|j: int|
                        0 <= j < c ==> nodes@[j].id@ != id@;
                assert(c == i) by {
                    if c < i {
                    } else if c > i {
                        assert(nodes@[i as int].id@ == id@);
                    }
                }
            }
            return Some(i);
        }
        i = i + 1;
    }
    None
}

fn connection_port(c: &UnifiedConnection) -> (r: &str)
    ensures
        r@ == port_of(*c),
{
    match &c.port {
        Some(p) => p.as_str(),
        None => "default",
    }
}

fn collect_targets(bp: &UnifiedBlueprint, from: &str, port: &str) -> (r: Vec<usize>)
    ensures
        ints(r@) == targets(bp.nodes@, bp.connections@, from@, port@),
        forall|k: int| 0 <= k < r@.len() ==> #[trigger] r@[k] < bp.nodes@.len(),
{
    let mut out: Vec<usize> = Vec::new();
    let mut k: usize = 0;
    proof {
        assert(bp.connections@.subrange(0, 0) =~= Seq::<UnifiedConnection>::empty());
        assert(ints(out@) =~= Seq::<int>::empty());
    }
    while k < bp.connections.len()
        invariant
            k <= bp.connections@.len(),
            ints(out@) == targets(bp.nodes@, bp.connections@.subrange(0, k as int), from@, port@),
            forall|j: int| 0 <= j < out@.len() ==> #[trigger] out@[j] < bp.nodes@.len(),
        decreases bp.connections@.len() - k,
    {
        let c = &bp.connections[k];
        proof {
            assert(bp.connections@.subrange(0, k + 1).drop_last() =~= bp.connections@.subrange(0, k as int));
        }
        if str_eq(c.from_id.as_str(), from) && str_eq(connection_port(c), port) {
            match find_node(&bp.nodes, c.to_id.as_str()) {
                Some(t) => {
                    let ghost before = out@;
                    out.push(t);
                    proof {
                        assert(ints(out@) =~= ints(before).push(t as int));
                    }
                },
                None => {},
            }
        }
        k = k + 1;
    }
    proof {
        assert(bp.connections@.subrange(0, bp.connections@.len() as int) =~= bp.connections@);
    }
    out
}

fn root_stack(nodes: &Vec<UnifiedNode>, trigger: &str) -> (r: Vec<usize>)
    ensures
        ints(r@) == roots(nodes@, trigger@),
        forall|k: int| 0 <= k < r@.len() ==> #[trigger] r@[k] < nodes@.len(),
{
    let mut found: Vec<usize> = Vec::new();
    let mut i: usize = 0;
    proof {
        assert(ints(found@) =~= Seq::<int>::empty());
    }
    while i < nodes.len()
        invariant
            i <= nodes@.len(),
            ints(found@) == matching_upto(nodes@, trigger@, i as int),
            forall|j: int| 0 <= j < found@.len() ==> #[trigger] found@[j] < nodes@.len(),
        decreases nodes@.len() - i,
    {
        if str_eq(nodes[i].node_type.as_str(), trigger) {
            let ghost before = found@;
            found.push(i);
            proof {
                assert(ints(found@) =~= ints(before).push(i as int));
            }
        }
        i = i + 1;
    }
    let mut out: Vec<usize> = Vec::new();
    let mut k: usize = found.len();
    proof {
        assert(ints(out@) =~= ints(found@).subrange(k as int, found@.len() as int).reverse());
    }
    while k > 0
        invariant
            k <= found@.len(),
            ints(out@) == ints(found@).subrange(k as int, found@.len() as int).reverse(),
            forall|j: int| 0 <= j < found@.len() ==> #[trigger] found@[j] < nodes@.len(),
            forall|j: int| 0 <= j < out@.len() ==> #[trigger] out@[j] < nodes@.len(),
        decreases k,
    {
        k = k - 1;
        let ghost before = out@;
        out.push(found[k]);
        proof {
            let f = ints(found@);
            assert(ints(out@) =~= f.subrange(k as int, f.len() as int).reverse()) by {
                assert(ints(out@) =~= ints(before).push(f[k as int]));
            }
        }
    }
    out
}

/// The first blueprint registered under `id`.
pub open spec fn blueprint_index(bps: Seq<UnifiedBlueprint>, id: Seq<char>) -> Option<int> {
    if exists|i: int| 0 <= i < bps.len() && bps[i].id@ == id {
        Some(
            choose|i: int|
                0 <= i < bps.len() && bps[i].id@ == id && forall|j: int| 0 <= j < i ==> bps[j].id@ != id,
        )
    } else {
        None
    }
}

proof fn lemma_first_exists(bps: Seq<UnifiedBlueprint>, id: Seq<char>, i: int)
    requires
        0 <= i < bps.len(),
        bps[i].id@ == id,
    ensures
        exists|k: int| 0 <= k < bps.len() && bps[k].id@ == id && forall|j: int| 0 <= j < k ==> bps[j].id@ != id,
    decreases i,
{
    if exists|j: int| 0 <= j < i && bps[j].id@ == id {
        let j = choose|j: int| 0 <= j < i && bps[j].id@ == id;
        lemma_first_exists(bps, id, j);
    } else {
        assert(forall|j: int| 0 <= j < i ==> bps[j].id@ != id);
    }
}

proof fn lemma_blueprint_index(bps: Seq<UnifiedBlueprint>, id: Seq<char>)
    ensures
        blueprint_index(bps, id) matches Some(k) ==> 0 <= k < bps.len() && bps[k].id@ == id
            && forall|j: int| 0 <= j < k ==> bps[j].id@ != id,
        blueprint_index(bps, id) is None ==> forall|j: int| 0 <= j < bps.len() ==> bps[j].id@ != id,
{
    if exists|i: int| 0 <= i < bps.len() && bps[i].id@ == id {
        let i = choose|i: int| 0 <= i < bps.len() && bps[i].id@ == id;
        lemma_first_exists(bps, id, i);
    }
}

/// Placing `b` at `pos` (over the first blueprint of its id, or at the end
/// when none has it) makes it the one found under its id and leaves every other
/// id finding what it found before.
proof fn lemma_index_after_place(o: Seq<UnifiedBlueprint>, n: Seq<UnifiedBlueprint>, pos: int, b: UnifiedBlueprint)
    requires
        blueprint_index(o, b.id@) matches Some(i) ==> pos == i && n == o.update(i, b),
        blueprint_index(o, b.id@) is None ==> pos == o.len() && n == o.push(b),
    ensures
        blueprint_index(n, b.id@) == Some(pos),
        forall|id: Seq<char>| #[trigger] blueprint_index(o, id) is Some ==> blueprint_index(n, id) is Some,
        forall|id: Seq<char>|
            id != b.id@ && #[trigger] blueprint_index(n, id) is Some ==> {
                &&& blueprint_index(o, id) is Some
                &&& n[blueprint_index(n, id)->0] == o[blueprint_index(o, id)->0]
            },
{
    lemma_blueprint_index(o, b.id@);
    lemma_blueprint_index(n, b.id@);
    assert(n[pos].id@ == b.id@);
    let c = blueprint_index(n, b.id@)->0;
    assert(c == pos) by {
        if c < pos {
            assert(o[c].id@ == b.id@);
        }
        if pos < c {
            assert(n[pos].id@ == b.id@);
        }
    }
    assert forall|id: Seq<char>| #[trigger] blueprint_index(o, id) is Some implies blueprint_index(n, id) is Some by {
        lemma_blueprint_index(o, id);
        lemma_blueprint_index(n, id);
        if id != b.id@ {
            let j = blueprint_index(o, id)->0;
            assert(j != pos);
            assert(n[j].id@ == id);
        }
    }
    assert forall|id: Seq<char>|
        id != b.id@ && #[trigger] blueprint_index(n, id) is Some implies blueprint_index(o, id) is Some
            && n[blueprint_index(n, id)->0] == o[blueprint_index(o, id)->0] by {
        lemma_blueprint_index(n, id);
        lemma_blueprint_index(o, id);
        let k = blueprint_index(n, id)->0;
        assert(k != pos);
        assert(o[k].id@ == id);
        let j = blueprint_index(o, id)->0;
        assert(j == k) by {
            if j < k {
                assert(n[j].id@ == id);
            }
            if k < j {
                assert(o[k].id@ == id);
            }
        }
    }
}

/// The interpreter: registered blueprints, the variable store, and the step
/// counter of the current execution under its ceiling.
#[derive(Debug)]
pub struct LogicKernel {
    pub blueprints: Vec<UnifiedBlueprint>,
    pub runtime_variables: PropMap,
    pub max_steps: usize,
    pub step_count: usize,
}

impl LogicKernel {
    pub open spec fn wf(&self) -> bool {
        &&& self.runtime_variables.wf()
        &&& forall|i: int| 0 <= i < self.blueprints@.len() ==> bp_wf(#[trigger] self.blueprints@[i])
    }

    /// A kernel with no blueprints, no variables and the default ceiling.
    pub fn new() -> (r: LogicKernel)
        ensures
            r.wf(),
            r.blueprints@.len() == 0,
            r.runtime_variables@ == Map::<Seq<char>, ValueModel>::empty(),
            r.max_steps == DEFAULT_MAX_STEPS,
            r.step_count == 0,
    {
        LogicKernel::with_max_steps(DEFAULT_MAX_STEPS)
    }

    /// A kernel with the given step ceiling.
    pub fn with_max_steps(max_steps: usize) -> (r: LogicKernel)
        ensures
            r.wf(),
            r.blueprints@.len() == 0,
            r.runtime_variables@ == Map::<Seq<char>, ValueModel>::empty(),
            r.max_steps == max_steps,
            r.step_count == 0,
    {
        LogicKernel {
            blueprints: Vec::new(),
            runtime_variables: PropMap::new(),
            max_steps,
            step_count: 0,
        }
    }

    fn find_blueprint(&self, id: &str) -> (r: Option<usize>)
        ensures
            r matches Some(i) ==> blueprint_index(self.blueprints@, id@) == Some(i as int) && i
                < self.blueprints@.len(),
            r is None ==> blueprint_index(self.blueprints@, id@) is None,
    {
        let mut i: usize = 0;
        while i < self.blueprints.len()
            invariant
                i <= self.blueprints@.len(),
                forall|j: int| 0 <= j < i ==> self.blueprints@[j].id@ != id@,
            decreases self.blueprints@.len() - i,
        {
            if str_eq(self.blueprints[i].id.as_str(), id) {
                proof {
                    let c = choose|c: int|
                        0 <= c < self.blueprints@.len() && self.blueprints@[c].id@ == id@ && forall|
                            j: int,
                        | 0 <= j < c ==> self.blueprints@[j].id@ != id@;
                    assert(c == i) by {
                        if c > i {
                            assert(self.blueprints@[i as int].id@ == id@);
                        }
                    }
                }
                return Some(i);
            }
            i = i + 1;
        }
        None
    }

    /// Registers a blueprint, replacing the one registered under the same id.
    pub fn register_blueprint(&mut self, bp: UnifiedBlueprint)
        requires
            old(self).wf(),
            bp_wf(bp),
        ensures
            final(self).wf(),
            blueprint_index(final(self).blueprints@, bp.id@) is Some,
            final(self).blueprints@[blueprint_index(final(self).blueprints@, bp.id@)->0] == bp,
            forall|id: Seq<char>|
                id != bp.id@ && #[trigger] blueprint_index(final(self).blueprints@, id) is Some ==> {
                    &&& blueprint_index(old(self).blueprints@, id) is Some
                    &&& final(self).blueprints@[blueprint_index(final(self).blueprints@, id)->0] == old(
                        self,
                    ).blueprints@[blueprint_index(old(self).blueprints@, id)->0]
                },
            forall|id: Seq<char>|
                #[trigger] blueprint_index(old(self).blueprints@, id) is Some ==> blueprint_index(
                    final(self).blueprints@,
                    id,
                ) is Some,
            final(self).runtime_variables == old(self).runtime_variables,
            final(self).max_steps == old(self).max_steps,
            final(self).step_count == old(self).step_count,
    {
        let ghost b = bp;
        let pos = match self.find_blueprint(bp.id.as_str()) {
            Some(i) => {
                self.blueprints.set(i, bp);
                i
            },
            None => {
                let n = self.blueprints.len();
                self.blueprints.push(bp);
                n
            },
        };
        proof {
            lemma_index_after_place(old(self).blueprints@, self.blueprints@, pos as int, b);
        }
    }

    /// Runs every node of blueprint `blueprint_id` whose type is `trigger_type`,
    /// depth first along matching connections, with the step counter reset.
    /// Returns the action events in the order visited, or why it stopped.
    pub fn execute(&mut self, blueprint_id: &str, trigger_type: &str, payload: &Value) -> (r: Result<
        Vec<String>,
        LogicError,
    >)
        requires
            old(self).wf(),
        ensures
            final(self).wf(),
            final(self).blueprints == old(self).blueprints,
            final(self).max_steps == old(self).max_steps,
            match blueprint_index(old(self).blueprints@, blueprint_id@) {
                None => r == Err::<Vec<String>, LogicError>(LogicError::NotFound)
                    && final(self).runtime_variables@ == old(self).runtime_variables@
                    && final(self).step_count == 0,
                Some(b) => {
                    let fin = execution(
                        old(self).blueprints@[b],
                        trigger_type@,
                        old(self).runtime_variables@,
                        old(self).max_steps as nat,
                    );
                    &&& final(self).runtime_variables@ == fin.vars
                    &&& final(self).step_count == fin.steps
                    &&& (fin.halted <==> r == Err::<Vec<String>, LogicError>(LogicError::StepLimit))
                    &&& (r matches Ok(ev) ==> crate::document::strings_view(ev@) == fin.events)
                    &&& (r is Ok || r is Err)
                },
            },
    {
        self.step_count = 0;
        let b = match self.find_blueprint(blueprint_id) {
            None => return Err(LogicError::NotFound),
            Some(b) => b,
        };
        let max = self.max_steps;
        let ghost bpg = self.blueprints@[b as int];
        assert(bp_wf(bpg));
        let mut stack = root_stack(&self.blueprints[b].nodes, trigger_type);
        let mut events: Vec<String> = Vec::new();
        let mut halted = false;
        let ghost target = execution(bpg, trigger_type@, old(self).runtime_variables@, max as nat);
        let ghost mut fuel: nat = max as nat + 1;
        proof {
            assert(crate::document::strings_view(events@) =~= Seq::<Seq<char>>::empty());
        }
        while !halted && stack.len() > 0
            invariant
                self.wf(),
                self.blueprints == old(self).blueprints,
                self.max_steps == max,
                b < self.blueprints@.len(),
                bpg == self.blueprints@[b as int],
                bp_wf(bpg),
                forall|k: int| 0 <= k < stack@.len() ==> #[trigger] stack@[k] < bpg.nodes@.len(),
                self.step_count <= max,
                !halted ==> fuel == max + 1 - self.step_count,
                run(
                    bpg,
                    RunState {
                        stack: ints(stack@),
                        vars: self.runtime_variables@,
                        steps: self.step_count as nat,
                        events: crate::document::strings_view(events@),
                        halted,
                    },
                    max as nat,
                    fuel,
                ) == target,
            decreases 2 * (max - self.step_count) + if halted { 0int } else { 1int },
        {
            let ghost cur = RunState {
                stack: ints(stack@),
                vars: self.runtime_variables@,
                steps: self.step_count as nat,
                events: crate::document::strings_view(events@),
                halted,
            };
            if self.step_count >= max {
                halted = true;
                proof {
                    assert(step(bpg, cur, max as nat) == RunState { halted: true, ..cur });
                    fuel = (fuel - 1) as nat;
                }
            } else {
                let i = stack.pop().unwrap();
                proof {
                    assert(ints(stack@) =~= cur.stack.drop_last());
                    assert(cur.stack.last() == i as int);
                }
                let bp = &self.blueprints[b];
                let node = &bp.nodes[i];
                assert(node.data.wf());
                let port = next_port(node);
                if str_eq(node.node_type.as_str(), "set_var") {
                    match node.data.get("varName") {
                        Some(v) => match v.as_text() {
                            Some(name) => {
                                let val = match node.data.get("value") {
                                    Some(x) => x.duplicate(),
                                    None => Value::Null,
                                };
                                self.runtime_variables.insert(name.clone(), val);
                            },
                            None => {},
                        },
                        None => {},
                    }
                }
                proof {
                    reveal_strlit("set_var");
                    reveal_strlit("condition");
                }
                if !str_eq(node.node_type.as_str(), "set_var") && !str_eq(node.node_type.as_str(), "condition") {
                    let ghost before = events@;
                    events.push(node.node_type.clone());
                    proof {
                        assert(crate::document::strings_view(events@) =~= crate::document::strings_view(before).push(node.node_type@));
                    }
                }
                let next = collect_targets(bp, node.id.as_str(), port.as_str());
                let ghost rest = stack@;
                let mut k: usize = next.len();
                proof {
                    assert(ints(next@).subrange(k as int, next@.len() as int) =~= Seq::<int>::empty());
                    assert(ints(stack@) =~= ints(rest) + ints(next@).subrange(k as int, next@.len() as int).reverse());
                }
                while k > 0
                    invariant
                        k <= next@.len(),
                        ints(stack@) == ints(rest) + ints(next@).subrange(k as int, next@.len() as int).reverse(),
                        forall|j: int| 0 <= j < next@.len() ==> #[trigger] next@[j] < bpg.nodes@.len(),
                        forall|j: int| 0 <= j < rest.len() ==> #[trigger] rest[j] < bpg.nodes@.len(),
                        forall|j: int| 0 <= j < stack@.len() ==> #[trigger] stack@[j] < bpg.nodes@.len(),
                    decreases k,
                {
                    k = k - 1;
                    let ghost before = stack@;
                    stack.push(next[k]);
                    proof {
                        let t = ints(next@);
                        assert(t.subrange(k as int, t.len() as int).reverse() =~= t.subrange(k + 1, t.len() as int).reverse().push(t[k as int]));
                        assert(ints(stack@) =~= ints(before).push(t[k as int]));
                    }
                }
                self.step_count = self.step_count + 1;
                proof {
                    assert(ints(next@).subrange(0, next@.len() as int) =~= ints(next@));
                    assert(step(bpg, cur, max as nat).stack == ints(stack@));
                    fuel = (fuel - 1) as nat;
                }
            }
        }
        proof {
            let fin = RunState {
                stack: ints(stack@),
                vars: self.runtime_variables@,
                steps: self.step_count as nat,
                events: crate::document::strings_view(events@),
                halted,
            };
            lemma_run_done(bpg, fin, max as nat, fuel);
        }
        if halted {
            Err(LogicError::StepLimit)
        } else {
            Ok(events)
        }
    }
}

proof fn lemma_self_loop_run(
    bp: UnifiedBlueprint,
    a: int,
    max: nat,
    s: nat,
    vars: Map<Seq<char>, ValueModel>,
    events: Seq<Seq<char>>,
)
    requires
        0 <= a < bp.nodes@.len(),
        s <= max,
        targets(
            bp.nodes@,
            bp.connections@,
            bp.nodes@[a].id@,
            port_spec(bp.nodes@[a].node_type@, bp.nodes@[a].data@),
        ) == seq![a],
    ensures
        ({
            let fin = run(
                bp,
                RunState { stack: seq![a], vars, steps: s, events, halted: false },
                max,
                (max + 1 - s) as nat,
            );
            fin.halted && fin.steps == max
        }),
    decreases max - s,
{
    let st = RunState { stack: seq![a], vars, steps: s, events, halted: false };
    if s == max {
        let st2 = step(bp, st, max);
        lemma_run_done(bp, st2, max, 0);
    } else {
        let st2 = step(bp, st, max);
        assert(st2.stack =~= seq![a]);
        lemma_self_loop_run(bp, a, max, s + 1, st2.vars, st2.events);
        assert(st2 == RunState { stack: seq![a], vars: st2.vars, steps: s + 1, events: st2.events, halted: false });
    }
}

/// A trigger whose only root is a node that leads back to itself through the
/// port it selects does not run forever: the execution halts with the step
/// counter at the ceiling.
pub proof fn lemma_self_loop_halts(
    bp: UnifiedBlueprint,
    trigger: Seq<char>,
    vars: Map<Seq<char>, ValueModel>,
    max: nat,
    a: int,
)
    requires
        0 <= a < bp.nodes@.len(),
        roots(bp.nodes@, trigger) == seq![a],
        targets(
            bp.nodes@,
            bp.connections@,
            bp.nodes@[a].id@,
            port_spec(bp.nodes@[a].node_type@, bp.nodes@[a].data@),
        ) == seq![a],
    ensures
        execution(bp, trigger, vars, max).halted,
        execution(bp, trigger, vars, max).steps == max,
{
    lemma_self_loop_run(bp, a, max, 0, vars, Seq::empty());
}

/// Variables and a trace for running a flow outside the editor.
#[derive(Debug)]
pub struct RuntimeContext {
    pub variables: PropMap,
    pub execution_trace: Vec<String>,
}

impl RuntimeContext {
    pub fn new() -> (r: RuntimeContext)
        ensures
            r.variables.wf(),
            r.variables@ == Map::<Seq<char>, ValueModel>::empty(),
            r.execution_trace@.len() == 0,
    {
        RuntimeContext { variables: PropMap::new(), execution_trace: Vec::new() }
    }

    pub fn set_variable(&mut self, key: &str, value: Value)
        requires
            old(self).variables.wf(),
        ensures
            final(self).variables.wf(),
            final(self).variables@ == old(self).variables@.insert(key@, value@),
            final(self).execution_trace == old(self).execution_trace,
    {
        self.variables.insert(owned(key), value);
    }

    pub fn get_variable(&self, key: &str) -> (r: Option<&Value>)
        requires
            self.variables.wf(),
        ensures
            r is Some <==> self.variables@.contains_key(key@),
            r matches Some(v) ==> v@ == self.variables@[key@],
    {
        self.variables.get(key)
    }
}

} // verus!
