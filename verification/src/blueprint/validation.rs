//! Static validation of a blueprint: file marker, node ids, variable names, execution
//! connections, reachability from events and execution cycles.

use crate::blueprint::graph::{cycle_free_set, reachable, reachable_set, reaches_cycle, Edge};
use crate::blueprint::model::{
    blueprint_format_text, diagnostic_views, Blueprint, BlueprintDiagnostic,
    BlueprintConnection, BlueprintNode, BlueprintNodeCategory, BlueprintNodeKind, DiagnosticView, Severity,
};
use crate::plugins::PluginBehavior;
use crate::text::{append_decimal, append_str, chars_of, decimal, is_blank, str_eq, str_is_blank, string_from_chars};
use std::collections::HashMap;
use std::collections::HashSet;
use vstd::prelude::*;

verus! {

broadcast use {vstd::string::group_string_axioms, vstd::std_specs::hash::group_hash_axioms};

/// An error diagnostic.
pub open spec fn error_view(code: Seq<char>, message: Seq<char>, node: Option<u64>) -> DiagnosticView {
    (Severity::Error, code, message, node)
}

/// A warning diagnostic.
pub open spec fn warning_view(code: Seq<char>, message: Seq<char>, node: Option<u64>) -> DiagnosticView {
    (Severity::Warning, code, message, node)
}

/// The diagnostic for a wrong file marker.
pub open spec fn magic_diagnostics(engine: Seq<char>) -> Seq<DiagnosticView> {
    if engine == blueprint_format_text() {
        seq![]
    } else {
        seq![error_view("invalid_magic"@, "无效蓝图格式标识: "@ + engine, None)]
    }
}

/// How many nodes carry an id.
pub open spec fn id_count(nodes: Seq<BlueprintNode>, id: u64) -> nat
    decreases nodes.len(),
{
    if nodes.len() == 0 {
        0
    } else {
        id_count(nodes.drop_last(), id) + if nodes.last().id == id {
            1nat
        } else {
            0nat
        }
    }
}

/// One error for every id that occurs more than once, at its second occurrence.
pub open spec fn duplicate_diagnostics(nodes: Seq<BlueprintNode>) -> Seq<DiagnosticView>
    decreases nodes.len(),
{
    if nodes.len() == 0 {
        seq![]
    } else {
        let id = nodes.last().id;
        duplicate_diagnostics(nodes.drop_last()) + if id_count(nodes.drop_last(), id) == 1 {
            seq![
                error_view(
                    "duplicate_node_id"@,
                    "节点ID "@ + decimal(id as nat) + " 重复"@,
                    Some(id),
                ),
            ]
        } else {
            seq![]
        }
    }
}

/// The index of the last node with an id, or -1; connections refer to that node.
pub open spec fn last_index(nodes: Seq<BlueprintNode>, id: u64) -> int
    decreases nodes.len(),
{
    if nodes.len() == 0 {
        -1
    } else if nodes.last().id == id {
        nodes.len() - 1
    } else {
        last_index(nodes.drop_last(), id)
    }
}

/// Whether a node declares a local (object) variable with a name that is not blank.
pub open spec fn declares(kind: BlueprintNodeKind, name: Seq<char>) -> bool {
    !is_blank(name) && match kind {
        BlueprintNodeKind::NumberVariable { name: n, .. } => n@ == name,
        BlueprintNodeKind::PluginNode { behavior, variable_name, .. } => behavior
            == PluginBehavior::NumberVariable && variable_name@ == name,
        _ => false,
    }
}

/// Whether some node declares a local variable.
pub open spec fn is_declared(nodes: Seq<BlueprintNode>, name: Seq<char>) -> bool {
    exists|i: int| 0 <= i < nodes.len() && declares(#[trigger] nodes[i].kind, name)
}

/// The error for a blank variable name.
pub open spec fn name_diagnostics(id: u64, name: Seq<char>) -> Seq<DiagnosticView> {
    if is_blank(name) {
        seq![error_view("empty_variable_name"@, "变量名不能为空"@, Some(id))]
    } else {
        seq![]
    }
}

/// The errors for a local variable reference: a blank name, or a name nothing declares.
pub open spec fn local_diagnostics(nodes: Seq<BlueprintNode>, id: u64, name: Seq<char>) -> Seq<
    DiagnosticView,
> {
    name_diagnostics(id, name) + if !is_blank(name) && !is_declared(nodes, name) {
        seq![
            error_view("undeclared_local_variable"@, "局部变量 "@ + name + " 未声明"@, Some(id)),
        ]
    } else {
        seq![]
    }
}

/// The variable errors of one node.
pub open spec fn node_variable_diagnostics(nodes: Seq<BlueprintNode>, node: BlueprintNode) -> Seq<
    DiagnosticView,
> {
    let id = node.id;
    match node.kind {
        BlueprintNodeKind::NumberVariable { name, .. } => name_diagnostics(id, name@),
        BlueprintNodeKind::GlobalNumberVariable { name, .. } => name_diagnostics(id, name@),
        BlueprintNodeKind::SetGlobalVariable { name, .. } => name_diagnostics(id, name@),
        BlueprintNodeKind::SetVariable { name, .. } => local_diagnostics(nodes, id, name@),
        BlueprintNodeKind::DetectTile { variable_name } => local_diagnostics(
            nodes,
            id,
            variable_name@,
        ),
        BlueprintNodeKind::IfCondition { variable_name, use_global, .. } => if use_global {
            name_diagnostics(id, variable_name@)
        } else {
            local_diagnostics(nodes, id, variable_name@)
        },
        BlueprintNodeKind::CompareVariables { left_name, right_name, use_global, .. } => if use_global {
            name_diagnostics(id, left_name@) + name_diagnostics(id, right_name@)
        } else {
            local_diagnostics(nodes, id, left_name@) + local_diagnostics(nodes, id, right_name@)
        },
        BlueprintNodeKind::PluginNode { behavior, variable_name, .. } => match behavior {
            PluginBehavior::NumberVariable | PluginBehavior::SetGlobalVariable => name_diagnostics(
                id,
                variable_name@,
            ),
            PluginBehavior::PickupCheck | PluginBehavior::SetObjectVariable => local_diagnostics(
                nodes,
                id,
                variable_name@,
            ),
            _ => seq![],
        },
        _ => seq![],
    }
}

/// The variable errors of a run of nodes, in node order; `all` holds every node.
pub open spec fn variable_diagnostics(all: Seq<BlueprintNode>, nodes: Seq<BlueprintNode>) -> Seq<
    DiagnosticView,
>
    decreases nodes.len(),
{
    if nodes.len() == 0 {
        seq![]
    } else {
        variable_diagnostics(all, nodes.drop_last()) + node_variable_diagnostics(all, nodes.last())
    }
}

/// Whether a connection may leave a node from a port: branching nodes use ports 1 and 2,
/// the others port 0.
pub open spec fn port_valid(kind: BlueprintNodeKind, port: u8) -> bool {
    if kind.branches() {
        port == 1 || port == 2
    } else {
        port == 0
    }
}

/// The error a connection raises, if any.
pub open spec fn connection_diagnostic(
    nodes: Seq<BlueprintNode>,
    c: BlueprintConnection,
) -> Option<DiagnosticView> {
    let s = last_index(nodes, c.from_node_id);
    let t = last_index(nodes, c.to_node_id);
    let from = decimal(c.from_node_id as nat);
    let to = decimal(c.to_node_id as nat);
    if s < 0 || t < 0 {
        Some(
            error_view(
                "invalid_connection_node"@,
                "连线 "@ + from + " -> "@ + to + " 引用了不存在的节点"@,
                if s >= 0 {
                    Some(c.from_node_id)
                } else if t >= 0 {
                    Some(c.to_node_id)
                } else {
                    None
                },
            ),
        )
    } else if !nodes[s].kind.has_output() || !nodes[t].kind.has_input() {
        Some(
            error_view(
                "invalid_connection_direction"@,
                "连线 "@ + from + " -> "@ + to + " 的执行方向无效"@,
                Some(c.from_node_id),
            ),
        )
    } else if !port_valid(nodes[s].kind, c.from_port) {
        Some(
            error_view(
                "invalid_connection_port"@,
                "节点 "@ + from + " 的输出端口 "@ + decimal(c.from_port as nat) + " 无效"@,
                Some(c.from_node_id),
            ),
        )
    } else {
        None
    }
}

/// The connection errors, in connection order.
pub open spec fn connection_diagnostics(
    nodes: Seq<BlueprintNode>,
    connections: Seq<BlueprintConnection>,
) -> Seq<DiagnosticView>
    decreases connections.len(),
{
    if connections.len() == 0 {
        seq![]
    } else {
        connection_diagnostics(nodes, connections.drop_last()) + match connection_diagnostic(
            nodes,
            connections.last(),
        ) {
            Some(d) => seq![d],
            None => seq![],
        }
    }
}

/// The execution edges of the connections that raise no error, in connection order.
pub open spec fn execution_edges(
    nodes: Seq<BlueprintNode>,
    connections: Seq<BlueprintConnection>,
) -> Seq<Edge>
    decreases connections.len(),
{
    if connections.len() == 0 {
        seq![]
    } else {
        let c = connections.last();
        execution_edges(nodes, connections.drop_last()) + if connection_diagnostic(
            nodes,
            c,
        ) is None {
            seq![(c.from_node_id, c.to_node_id)]
        } else {
            seq![]
        }
    }
}

/// The ids of the event nodes, in node order.
pub open spec fn event_ids(nodes: Seq<BlueprintNode>) -> Seq<u64>
    decreases nodes.len(),
{
    if nodes.len() == 0 {
        seq![]
    } else {
        event_ids(nodes.drop_last()) + if nodes.last().kind.category_of()
            == BlueprintNodeCategory::Event {
            seq![nodes.last().id]
        } else {
            seq![]
        }
    }
}

/// The warning for a graph with executable nodes and no event.
pub open spec fn entry_diagnostics(nodes: Seq<BlueprintNode>) -> Seq<DiagnosticView> {
    if event_ids(nodes).len() == 0 && exists|i: int|
        0 <= i < nodes.len() && (#[trigger] nodes[i].kind).has_input() {
        seq![warning_view("no_event_entry"@, "执行图没有事件入口"@, None)]
    } else {
        seq![]
    }
}

/// One warning for every node with an execution input that no event reaches.
pub open spec fn unreachable_diagnostics(
    nodes: Seq<BlueprintNode>,
    edges: Seq<Edge>,
    events: Seq<u64>,
) -> Seq<DiagnosticView>
    decreases nodes.len(),
{
    if nodes.len() == 0 {
        seq![]
    } else {
        let n = nodes.last();
        unreachable_diagnostics(nodes.drop_last(), edges, events) + if n.kind.has_input()
            && !reachable(edges, events, n.id) {
            seq![
                warning_view(
                    "unreachable_from_event"@,
                    "执行节点 "@ + decimal(n.id as nat) + " 无法从任何事件到达"@,
                    Some(n.id),
                ),
            ]
        } else {
            seq![]
        }
    }
}

/// One warning at the first node, in node order, from which a cycle can be reached.
pub open spec fn cycle_diagnostics(nodes: Seq<BlueprintNode>, edges: Seq<Edge>) -> Seq<
    DiagnosticView,
>
    decreases nodes.len(),
{
    if nodes.len() == 0 {
        seq![]
    } else {
        let before = cycle_diagnostics(nodes.drop_last(), edges);
        if before.len() > 0 {
            before
        } else if reaches_cycle(edges, nodes.last().id) {
            seq![
                warning_view(
                    "execution_cycle"@,
                    "执行图包含循环，可能触发单帧执行上限"@,
                    Some(nodes.last().id),
                ),
            ]
        } else {
            seq![]
        }
    }
}

/// Everything validation reports about a blueprint, in report order.
pub open spec fn validation_diagnostics(b: Blueprint) -> Seq<DiagnosticView> {
    let nodes = b.nodes@;
    let edges = execution_edges(nodes, b.connections@);
    magic_diagnostics(b.slide2d_engine@) + duplicate_diagnostics(nodes) + variable_diagnostics(
        nodes,
        nodes,
    ) + connection_diagnostics(nodes, b.connections@) + entry_diagnostics(nodes)
        + unreachable_diagnostics(nodes, edges, event_ids(nodes)) + cycle_diagnostics(nodes, edges)
}

/// The last index of an id lies inside the list and points at a node with the id; it is
/// -1 exactly when no node has the id, and then the id is counted zero times.
pub proof fn lemma_last_index(nodes: Seq<BlueprintNode>, id: u64)
    ensures
        -1 <= last_index(nodes, id) < nodes.len(),
        last_index(nodes, id) >= 0 ==> nodes[last_index(nodes, id)].id == id,
        last_index(nodes, id) < 0 <==> id_count(nodes, id) == 0,
        last_index(nodes, id) < 0 ==> forall|i: int| 0 <= i < nodes.len() ==> #[trigger] nodes[i].id != id,
    decreases nodes.len(),
{
    if nodes.len() > 0 {
        lemma_last_index(nodes.drop_last(), id);
        if last_index(nodes, id) < 0 {
            assert forall|i: int| 0 <= i < nodes.len() implies #[trigger] nodes[i].id != id by {
                if i < nodes.len() - 1 {
                    assert(nodes.drop_last()[i] == nodes[i]);
                }
            }
        }
    }
}

/// Appends one diagnostic.
fn emit(
    out: &mut Vec<BlueprintDiagnostic>,
    severity: Severity,
    code: &str,
    message: &Vec<char>,
    node_id: Option<u64>,
)
    ensures
        diagnostic_views(final(out)@) == diagnostic_views(old(out)@).push(
            (severity, code@, message@, node_id),
        ),
{
    let ghost before = out@;
    let d = BlueprintDiagnostic::new(severity, code, string_from_chars(message), node_id);
    out.push(d);
    assert(diagnostic_views(out@) =~= diagnostic_views(before).push(d.view_of()));
}

/// Reports duplicate node ids and indexes every id by the last node that carries it.
fn index_nodes(nodes: &Vec<BlueprintNode>, out: &mut Vec<BlueprintDiagnostic>) -> (last: HashMap<
    u64,
    usize,
>)
    ensures
        diagnostic_views(final(out)@) == diagnostic_views(old(out)@) + duplicate_diagnostics(nodes@),
        forall|id: u64| #[trigger] last@.contains_key(id) <==> last_index(nodes@, id) >= 0,
        forall|id: u64| #[trigger] last@.contains_key(id) ==> last@[id] == last_index(nodes@, id),
{
    let ghost base = diagnostic_views(out@);
    let mut last: HashMap<u64, usize> = HashMap::new();
    let mut twice: HashSet<u64> = HashSet::new();
    let mut i: usize = 0;
    while i < nodes.len()
        invariant
            i <= nodes@.len(),
            diagnostic_views(out@) == base + duplicate_diagnostics(nodes@.take(i as int)),
            forall|id: u64| #[trigger] last@.contains_key(id) <==> id_count(nodes@.take(i as int), id) >= 1,
            forall|id: u64| #[trigger] last@.contains_key(id) ==> last@[id] == last_index(nodes@.take(i as int), id),
            forall|id: u64| #[trigger] twice@.contains(id) <==> id_count(nodes@.take(i as int), id) >= 2,
        decreases nodes@.len() - i,
    {
        let id = nodes[i].id;
        let ghost prefix = nodes@.take(i as int);
        let ghost next = nodes@.take(i + 1);
        proof {
            assert(next.drop_last() =~= prefix);
            assert(next.last() == nodes@[i as int]);
        }
        let seen = last.contains_key(&id);
        let repeated = twice.contains(&id);
        let ghost out_before = diagnostic_views(out@);
        if seen && !repeated {
            let mut message = chars_of("节点ID ");
            append_decimal(&mut message, id);
            append_str(&mut message, " 重复");
            emit(out, Severity::Error, "duplicate_node_id", &message, Some(id));
            twice.insert(id);
        }
        last.insert(id, i);
        proof {
            assert(diagnostic_views(out@) =~= base + duplicate_diagnostics(next));
            assert forall|k: u64| #[trigger] last@.contains_key(k) <==> id_count(next, k) >= 1 by {
                assert(id_count(next, k) == id_count(prefix, k) + if id == k { 1nat } else { 0nat });
            }
            assert forall|k: u64| #[trigger] last@.contains_key(k) implies last@[k] == last_index(next, k) by {}
            assert forall|k: u64| #[trigger] twice@.contains(k) <==> id_count(next, k) >= 2 by {
                assert(id_count(next, k) == id_count(prefix, k) + if id == k { 1nat } else { 0nat });
            }
        }
        i = i + 1;
    }
    proof {
        assert(nodes@.take(i as int) =~= nodes@);
        assert forall|id: u64| #[trigger] last@.contains_key(id) <==> last_index(nodes@, id) >= 0 by {
            lemma_last_index(nodes@, id);
        }
    }
    last
}

/// Whether a node kind declares a local variable with this name.
fn kind_declares(kind: &BlueprintNodeKind, name: &str) -> (r: bool)
    ensures
        r == declares(*kind, name@),
{
    if str_is_blank(name) {
        return false;
    }
    match kind {
        BlueprintNodeKind::NumberVariable { name: declared, .. } => str_eq(declared.as_str(), name),
        BlueprintNodeKind::PluginNode { behavior, variable_name, .. } => *behavior
            == PluginBehavior::NumberVariable && str_eq(variable_name.as_str(), name),
        _ => false,
    }
}

/// Whether some node declares a local variable with this name.
fn declared(nodes: &Vec<BlueprintNode>, name: &str) -> (r: bool)
    ensures
        r == is_declared(nodes@, name@),
{
    let mut i: usize = 0;
    while i < nodes.len()
        invariant
            i <= nodes@.len(),
            forall|j: int| 0 <= j < i ==> !declares(#[trigger] nodes@[j].kind, name@),
        decreases nodes@.len() - i,
    {
        if kind_declares(&nodes[i].kind, name) {
            return true;
        }
        i = i + 1;
    }
    false
}

/// Reports a blank variable name.
fn check_name(out: &mut Vec<BlueprintDiagnostic>, id: u64, name: &str)
    ensures
        diagnostic_views(final(out)@) == diagnostic_views(old(out)@) + name_diagnostics(id, name@),
{
    let ghost before = diagnostic_views(out@);
    if str_is_blank(name) {
        let message = chars_of("变量名不能为空");
        emit(out, Severity::Error, "empty_variable_name", &message, Some(id));
    }
    assert(diagnostic_views(out@) =~= before + name_diagnostics(id, name@));
}

/// Reports a blank or undeclared local variable name.
fn check_local(out: &mut Vec<BlueprintDiagnostic>, nodes: &Vec<BlueprintNode>, id: u64, name: &str)
    ensures
        diagnostic_views(final(out)@) == diagnostic_views(old(out)@) + local_diagnostics(
            nodes@,
            id,
            name@,
        ),
{
    let ghost before = diagnostic_views(out@);
    check_name(out, id, name);
    let ghost middle = diagnostic_views(out@);
    if !str_is_blank(name) && !declared(nodes, name) {
        let mut message = chars_of("局部变量 ");
        append_str(&mut message, name);
        append_str(&mut message, " 未声明");
        emit(out, Severity::Error, "undeclared_local_variable", &message, Some(id));
    }
    assert(diagnostic_views(out@) =~= before + local_diagnostics(nodes@, id, name@));
}

/// Reports the variable errors of one node.
fn check_node_variables(
    out: &mut Vec<BlueprintDiagnostic>,
    nodes: &Vec<BlueprintNode>,
    node: &BlueprintNode,
)
    ensures
        diagnostic_views(final(out)@) == diagnostic_views(old(out)@) + node_variable_diagnostics(
            nodes@,
            *node,
        ),
{
    let ghost before = diagnostic_views(out@);
    let id = node.id;
    match &node.kind {
        BlueprintNodeKind::NumberVariable { name, .. } => check_name(out, id, name.as_str()),
        BlueprintNodeKind::GlobalNumberVariable { name, .. } => check_name(out, id, name.as_str()),
        BlueprintNodeKind::SetGlobalVariable { name, .. } => check_name(out, id, name.as_str()),
        BlueprintNodeKind::SetVariable { name, .. } => check_local(out, nodes, id, name.as_str()),
        BlueprintNodeKind::DetectTile { variable_name } => check_local(
            out,
            nodes,
            id,
            variable_name.as_str(),
        ),
        BlueprintNodeKind::IfCondition { variable_name, use_global, .. } => {
            if *use_global {
                check_name(out, id, variable_name.as_str());
            } else {
                check_local(out, nodes, id, variable_name.as_str());
            }
        },
        BlueprintNodeKind::CompareVariables { left_name, right_name, use_global, .. } => {
            if *use_global {
                check_name(out, id, left_name.as_str());
                check_name(out, id, right_name.as_str());
            } else {
                check_local(out, nodes, id, left_name.as_str());
                check_local(out, nodes, id, right_name.as_str());
            }
        },
        BlueprintNodeKind::PluginNode { behavior, variable_name, .. } => match behavior {
            PluginBehavior::NumberVariable | PluginBehavior::SetGlobalVariable => check_name(
                out,
                id,
                variable_name.as_str(),
            ),
            PluginBehavior::PickupCheck | PluginBehavior::SetObjectVariable => check_local(
                out,
                nodes,
                id,
                variable_name.as_str(),
            ),
            _ => {},
        },
        _ => {},
    }
    assert(diagnostic_views(out@) =~= before + node_variable_diagnostics(nodes@, *node));
}

/// Reports the variable errors of every node, in node order.
fn check_variables(out: &mut Vec<BlueprintDiagnostic>, nodes: &Vec<BlueprintNode>)
    ensures
        diagnostic_views(final(out)@) == diagnostic_views(old(out)@) + variable_diagnostics(
            nodes@,
            nodes@,
        ),
{
    let ghost base = diagnostic_views(out@);
    let mut i: usize = 0;
    while i < nodes.len()
        invariant
            i <= nodes@.len(),
            diagnostic_views(out@) == base + variable_diagnostics(nodes@, nodes@.take(i as int)),
        decreases nodes@.len() - i,
    {
        check_node_variables(out, nodes, &nodes[i]);
        proof {
            let next = nodes@.take(i + 1);
            assert(next.drop_last() =~= nodes@.take(i as int));
            assert(diagnostic_views(out@) =~= base + variable_diagnostics(nodes@, next));
        }
        i = i + 1;
    }
    assert(nodes@.take(i as int) =~= nodes@);
}

/// Reports the connection errors and returns the edges of the valid connections.
fn check_connections(
    out: &mut Vec<BlueprintDiagnostic>,
    nodes: &Vec<BlueprintNode>,
    connections: &Vec<BlueprintConnection>,
    last: &HashMap<u64, usize>,
) -> (edges: Vec<Edge>)
    requires
        forall|id: u64| #[trigger] last@.contains_key(id) <==> last_index(nodes@, id) >= 0,
        forall|id: u64| #[trigger] last@.contains_key(id) ==> last@[id] == last_index(nodes@, id),
    ensures
        diagnostic_views(final(out)@) == diagnostic_views(old(out)@) + connection_diagnostics(
            nodes@,
            connections@,
        ),
        edges@ == execution_edges(nodes@, connections@),
{
    let ghost base = diagnostic_views(out@);
    let mut edges: Vec<Edge> = Vec::new();
    let mut k: usize = 0;
    while k < connections.len()
        invariant
            k <= connections@.len(),
            forall|id: u64| #[trigger] last@.contains_key(id) <==> last_index(nodes@, id) >= 0,
            forall|id: u64| #[trigger] last@.contains_key(id) ==> last@[id] == last_index(nodes@, id),
            diagnostic_views(out@) == base + connection_diagnostics(nodes@, connections@.take(k as int)),
            edges@ == execution_edges(nodes@, connections@.take(k as int)),
        decreases connections@.len() - k,
    {
        let c = connections[k];
        let ghost prefix = connections@.take(k as int);
        let ghost next = connections@.take(k + 1);
        proof {
            assert(next.drop_last() =~= prefix);
            assert(next.last() == c);
            lemma_last_index(nodes@, c.from_node_id);
            lemma_last_index(nodes@, c.to_node_id);
        }
        let ghost before = diagnostic_views(out@);
        let source = last.get(&c.from_node_id);
        let target = last.get(&c.to_node_id);
        match (source, target) {
            (Some(s), Some(t)) => {
                let s: usize = *s;
                let t: usize = *t;
                let source_kind = &nodes[s].kind;
                if !source_kind.has_execution_output() || !nodes[t].kind.has_execution_input() {
                    let mut message = chars_of("连线 ");
                    append_decimal(&mut message, c.from_node_id);
                    append_str(&mut message, " -> ");
                    append_decimal(&mut message, c.to_node_id);
                    append_str(&mut message, " 的执行方向无效");
                    emit(
                        out,
                        Severity::Error,
                        "invalid_connection_direction",
                        &message,
                        Some(c.from_node_id),
                    );
                } else {
                    let port_ok = if source_kind.uses_branch_outputs() {
                        c.from_port == 1 || c.from_port == 2
                    } else {
                        c.from_port == 0
                    };
                    if !port_ok {
                        let mut message = chars_of("节点 ");
                        append_decimal(&mut message, c.from_node_id);
                        append_str(&mut message, " 的输出端口 ");
                        append_decimal(&mut message, c.from_port as u64);
                        append_str(&mut message, " 无效");
                        emit(
                            out,
                            Severity::Error,
                            "invalid_connection_port",
                            &message,
                            Some(c.from_node_id),
                        );
                    } else {
                        edges.push((c.from_node_id, c.to_node_id));
                    }
                }
            },
            _ => {
                let node = match source {
                    Some(_) => Some(c.from_node_id),
                    None => match target {
                        Some(_) => Some(c.to_node_id),
                        None => None,
                    },
                };
                let mut message = chars_of("连线 ");
                append_decimal(&mut message, c.from_node_id);
                append_str(&mut message, " -> ");
                append_decimal(&mut message, c.to_node_id);
                append_str(&mut message, " 引用了不存在的节点");
                emit(out, Severity::Error, "invalid_connection_node", &message, node);
            },
        }
        proof {
            assert(diagnostic_views(out@) =~= base + connection_diagnostics(nodes@, next));
            assert(edges@ =~= execution_edges(nodes@, next));
        }
        k = k + 1;
    }
    assert(connections@.take(k as int) =~= connections@);
    edges
}

/// The ids of the event nodes, in node order.
pub(crate) fn collect_event_ids(nodes: &Vec<BlueprintNode>) -> (ids: Vec<u64>)
    ensures
        ids@ == event_ids(nodes@),
{
    let mut ids: Vec<u64> = Vec::new();
    let mut i: usize = 0;
    while i < nodes.len()
        invariant
            i <= nodes@.len(),
            ids@ == event_ids(nodes@.take(i as int)),
        decreases nodes@.len() - i,
    {
        if nodes[i].kind.category() == BlueprintNodeCategory::Event {
            ids.push(nodes[i].id);
        }
        proof {
            let next = nodes@.take(i + 1);
            assert(next.drop_last() =~= nodes@.take(i as int));
            assert(ids@ =~= event_ids(next));
        }
        i = i + 1;
    }
    assert(nodes@.take(i as int) =~= nodes@);
    ids
}

/// Reports a graph with executable nodes and no event.
fn check_entry(out: &mut Vec<BlueprintDiagnostic>, nodes: &Vec<BlueprintNode>, events: &Vec<u64>)
    requires
        events@ == event_ids(nodes@),
    ensures
        diagnostic_views(final(out)@) == diagnostic_views(old(out)@) + entry_diagnostics(nodes@),
{
    let ghost before = diagnostic_views(out@);
    let mut any_input = false;
    let mut i: usize = 0;
    while i < nodes.len()
        invariant
            i <= nodes@.len(),
            any_input == exists|j: int| 0 <= j < i && (#[trigger] nodes@[j].kind).has_input(),
        decreases nodes@.len() - i,
    {
        if nodes[i].kind.has_execution_input() {
            any_input = true;
        }
        i = i + 1;
    }
    if events.len() == 0 && any_input {
        let message = chars_of("执行图没有事件入口");
        emit(out, Severity::Warning, "no_event_entry", &message, None);
    }
    assert(diagnostic_views(out@) =~= before + entry_diagnostics(nodes@));
}

/// Reports every node with an execution input that no event reaches.
fn check_unreachable(
    out: &mut Vec<BlueprintDiagnostic>,
    nodes: &Vec<BlueprintNode>,
    edges: &Vec<Edge>,
    events: &Vec<u64>,
)
    ensures
        diagnostic_views(final(out)@) == diagnostic_views(old(out)@) + unreachable_diagnostics(
            nodes@,
            edges@,
            events@,
        ),
{
    let ghost base = diagnostic_views(out@);
    let reached = reachable_set(edges, events);
    let mut i: usize = 0;
    while i < nodes.len()
        invariant
            i <= nodes@.len(),
            forall|x: u64| reached@.contains(x) <==> reachable(edges@, events@, x),
            diagnostic_views(out@) == base + unreachable_diagnostics(
                nodes@.take(i as int),
                edges@,
                events@,
            ),
        decreases nodes@.len() - i,
    {
        let id = nodes[i].id;
        if nodes[i].kind.has_execution_input() && !reached.contains(&id) {
            let mut message = chars_of("执行节点 ");
            append_decimal(&mut message, id);
            append_str(&mut message, " 无法从任何事件到达");
            emit(out, Severity::Warning, "unreachable_from_event", &message, Some(id));
        }
        proof {
            let next = nodes@.take(i + 1);
            assert(next.drop_last() =~= nodes@.take(i as int));
            assert(diagnostic_views(out@) =~= base + unreachable_diagnostics(next, edges@, events@));
        }
        i = i + 1;
    }
    assert(nodes@.take(i as int) =~= nodes@);
}

/// Reports the first node, in node order, from which a cycle can be reached.
fn check_cycles(out: &mut Vec<BlueprintDiagnostic>, nodes: &Vec<BlueprintNode>, edges: &Vec<Edge>)
    ensures
        diagnostic_views(final(out)@) == diagnostic_views(old(out)@) + cycle_diagnostics(
            nodes@,
            edges@,
        ),
{
    let ghost base = diagnostic_views(out@);
    let mut ids: Vec<u64> = Vec::new();
    let mut i: usize = 0;
    while i < nodes.len()
        invariant
            i <= nodes@.len(),
            ids@.len() == i,
            forall|j: int| 0 <= j < i ==> ids@[j] == #[trigger] nodes@[j].id,
        decreases nodes@.len() - i,
    {
        ids.push(nodes[i].id);
        i = i + 1;
    }
    let free = cycle_free_set(edges, &ids);
    let mut found = false;
    let mut i: usize = 0;
    while i < nodes.len()
        invariant
            i <= nodes@.len(),
            ids@.len() == nodes@.len(),
            forall|j: int| 0 <= j < nodes@.len() ==> ids@[j] == #[trigger] nodes@[j].id,
            forall|v: u64|
                #[trigger] ids@.contains(v) ==> (free@.contains(v) <==> !reaches_cycle(edges@, v)),
            found == (cycle_diagnostics(nodes@.take(i as int), edges@).len() > 0),
            diagnostic_views(out@) == base + cycle_diagnostics(nodes@.take(i as int), edges@),
        decreases nodes@.len() - i,
    {
        let id = nodes[i].id;
        proof {
            assert(ids@[i as int] == id);
            assert(ids@.contains(id));
        }
        if !found && !free.contains(&id) {
            let message = chars_of("执行图包含循环，可能触发单帧执行上限");
            emit(out, Severity::Warning, "execution_cycle", &message, Some(id));
            found = true;
        }
        proof {
            let next = nodes@.take(i + 1);
            assert(next.drop_last() =~= nodes@.take(i as int));
            assert(diagnostic_views(out@) =~= base + cycle_diagnostics(next, edges@));
        }
        i = i + 1;
    }
    assert(nodes@.take(i as int) =~= nodes@);
}

impl Blueprint {
    /// Checks the blueprint and returns its diagnostics in report order: the file marker,
    /// duplicate node ids, variable names, connections, a missing event entry, nodes no event
    /// reaches, and the first node from which an execution cycle can be reached.
    pub fn validate(&self) -> (r: Vec<BlueprintDiagnostic>)
        ensures
            diagnostic_views(r@) == validation_diagnostics(*self),
    {
        let mut out: Vec<BlueprintDiagnostic> = Vec::new();
        let ghost empty = diagnostic_views(out@);
        assert(empty =~= Seq::<DiagnosticView>::empty());
        let marker = "SLIDE2D_BLUEPRINT";
        if !str_eq(self.slide2d_engine.as_str(), marker) {
            let mut message = chars_of("无效蓝图格式标识: ");
            append_str(&mut message, self.slide2d_engine.as_str());
            emit(&mut out, Severity::Error, "invalid_magic", &message, None);
        }
        assert(diagnostic_views(out@) =~= magic_diagnostics(self.slide2d_engine@));
        let last = index_nodes(&self.nodes, &mut out);
        check_variables(&mut out, &self.nodes);
        let edges = check_connections(&mut out, &self.nodes, &self.connections, &last);
        let events = collect_event_ids(&self.nodes);
        check_entry(&mut out, &self.nodes, &events);
        check_unreachable(&mut out, &self.nodes, &edges, &events);
        check_cycles(&mut out, &self.nodes, &edges);
        out
    }
}

/// Validation warns about execution cycles at most once, exactly when a cycle can be
/// reached from some node, and then at the first such node.
pub proof fn law_cycle_warning(nodes: Seq<BlueprintNode>, edges: Seq<Edge>)
    ensures
        cycle_diagnostics(nodes, edges).len() <= 1,
        cycle_diagnostics(nodes, edges).len() == 1 <==> exists|i: int|
            0 <= i < nodes.len() && reaches_cycle(edges, #[trigger] nodes[i].id),
        cycle_diagnostics(nodes, edges).len() == 1 ==> exists|i: int|
            0 <= i < nodes.len() && reaches_cycle(edges, #[trigger] nodes[i].id) && (forall|j: int|
                0 <= j < i ==> !reaches_cycle(edges, nodes[j].id)) && cycle_diagnostics(
                nodes,
                edges,
            )[0].3 == Some(nodes[i].id),
    decreases nodes.len(),
{
    if nodes.len() > 0 {
        let prev = nodes.drop_last();
        law_cycle_warning(prev, edges);
        let last = nodes.len() - 1;
        assert forall|i: int| 0 <= i < prev.len() implies prev[i] == nodes[i] by {}
        if cycle_diagnostics(prev, edges).len() == 1 {
            let i = choose|i: int|
                0 <= i < prev.len() && reaches_cycle(edges, #[trigger] prev[i].id) && (forall|j: int|
                    0 <= j < i ==> !reaches_cycle(edges, prev[j].id)) && cycle_diagnostics(
                    prev,
                    edges,
                )[0].3 == Some(prev[i].id);
            assert(reaches_cycle(edges, nodes[i].id));
        } else {
            assert forall|i: int| 0 <= i < prev.len() implies !reaches_cycle(edges, #[trigger] nodes[i].id) by {
                assert(!reaches_cycle(edges, prev[i].id));
            }
            if reaches_cycle(edges, nodes[last].id) {
                assert(reaches_cycle(edges, nodes[last].id));
            }
        }
    }
}

/// Whether no diagnostic of a list has a code of length 13 (as `invalid_magic`) or 17 (as
/// `duplicate_node_id`).
pub open spec fn other_codes(ds: Seq<DiagnosticView>) -> bool {
    forall|i: int| 0 <= i < ds.len() ==> (#[trigger] ds[i]).1.len() != 13 && ds[i].1.len() != 17
}

/// Whether no diagnostic of a list has a code of length 15 (as `execution_cycle`).
pub open spec fn no_cycle_code(ds: Seq<DiagnosticView>) -> bool {
    forall|i: int| 0 <= i < ds.len() ==> (#[trigger] ds[i]).1.len() != 15
}

/// How many diagnostics of a list warn about an execution cycle.
pub open spec fn cycle_reports(ds: Seq<DiagnosticView>) -> nat
    decreases ds.len(),
{
    if ds.len() == 0 {
        0
    } else {
        cycle_reports(ds.drop_last()) + if ds.last().1 == "execution_cycle"@ {
            1nat
        } else {
            0nat
        }
    }
}

proof fn lemma_cycle_reports_concat(a: Seq<DiagnosticView>, b: Seq<DiagnosticView>)
    ensures
        cycle_reports(a + b) == cycle_reports(a) + cycle_reports(b),
    decreases b.len(),
{
    if b.len() == 0 {
        assert(a + b =~= a);
    } else {
        lemma_cycle_reports_concat(a, b.drop_last());
        assert((a + b).drop_last() =~= a + b.drop_last());
    }
}

proof fn lemma_no_cycle_code_reports_nothing(ds: Seq<DiagnosticView>)
    requires
        no_cycle_code(ds),
    ensures
        cycle_reports(ds) == 0,
    decreases ds.len(),
{
    reveal_strlit("execution_cycle");
    if ds.len() > 0 {
        assert(no_cycle_code(ds.drop_last()));
        lemma_no_cycle_code_reports_nothing(ds.drop_last());
        assert(ds[ds.len() - 1].1.len() != 15);
    }
}

proof fn lemma_no_cycle_code_concat(a: Seq<DiagnosticView>, b: Seq<DiagnosticView>)
    requires
        no_cycle_code(a),
        no_cycle_code(b),
    ensures
        no_cycle_code(a + b),
{
    assert forall|i: int| 0 <= i < (a + b).len() implies (#[trigger] (a + b)[i]).1.len() != 15 by {
        if i < a.len() {
            assert((a + b)[i] == a[i]);
        } else {
            assert((a + b)[i] == b[i - a.len()]);
        }
    }
}

proof fn lemma_variable_cycle_free(all: Seq<BlueprintNode>, nodes: Seq<BlueprintNode>)
    ensures
        no_cycle_code(variable_diagnostics(all, nodes)),
    decreases nodes.len(),
{
    reveal_strlit("empty_variable_name");
    reveal_strlit("undeclared_local_variable");
    if nodes.len() > 0 {
        lemma_variable_cycle_free(all, nodes.drop_last());
        let n = nodes.last();
        assert forall|id: u64, name: Seq<char>| no_cycle_code(#[trigger] name_diagnostics(id, name)) by {}
        assert forall|id: u64, name: Seq<char>| no_cycle_code(#[trigger] local_diagnostics(all, id, name)) by {
            lemma_no_cycle_code_concat(
                name_diagnostics(id, name),
                if !is_blank(name) && !is_declared(all, name) {
                    seq![
                        error_view(
                            "undeclared_local_variable"@,
                            "局部变量 "@ + name + " 未声明"@,
                            Some(id),
                        ),
                    ]
                } else {
                    seq![]
                },
            );
        }
        assert forall|a: Seq<DiagnosticView>, b: Seq<DiagnosticView>|
            no_cycle_code(a) && no_cycle_code(b) implies #[trigger] no_cycle_code(a + b) by {
            lemma_no_cycle_code_concat(a, b);
        }
        assert(no_cycle_code(node_variable_diagnostics(all, n)));
        lemma_no_cycle_code_concat(variable_diagnostics(all, nodes.drop_last()), node_variable_diagnostics(all, n));
    }
}

proof fn lemma_connection_cycle_free(nodes: Seq<BlueprintNode>, connections: Seq<BlueprintConnection>)
    ensures
        no_cycle_code(connection_diagnostics(nodes, connections)),
    decreases connections.len(),
{
    reveal_strlit("invalid_connection_node");
    reveal_strlit("invalid_connection_direction");
    reveal_strlit("invalid_connection_port");
    if connections.len() > 0 {
        lemma_connection_cycle_free(nodes, connections.drop_last());
        let tail = match connection_diagnostic(nodes, connections.last()) {
            Some(d) => seq![d],
            None => seq![],
        };
        assert(no_cycle_code(tail));
        lemma_no_cycle_code_concat(connection_diagnostics(nodes, connections.drop_last()), tail);
    }
}

proof fn lemma_unreachable_cycle_free(nodes: Seq<BlueprintNode>, edges: Seq<Edge>, events: Seq<u64>)
    ensures
        no_cycle_code(unreachable_diagnostics(nodes, edges, events)),
    decreases nodes.len(),
{
    reveal_strlit("unreachable_from_event");
    if nodes.len() > 0 {
        lemma_unreachable_cycle_free(nodes.drop_last(), edges, events);
        let n = nodes.last();
        let tail = if n.kind.has_input() && !reachable(edges, events, n.id) {
            seq![
                warning_view(
                    "unreachable_from_event"@,
                    "执行节点 "@ + decimal(n.id as nat) + " 无法从任何事件到达"@,
                    Some(n.id),
                ),
            ]
        } else {
            seq![]
        };
        assert(no_cycle_code(tail));
        lemma_no_cycle_code_concat(unreachable_diagnostics(nodes.drop_last(), edges, events), tail);
    }
}

proof fn lemma_duplicate_cycle_free(nodes: Seq<BlueprintNode>)
    ensures
        no_cycle_code(duplicate_diagnostics(nodes)),
{
    lemma_duplicate_counts(nodes, 0);
    reveal_strlit("duplicate_node_id");
    assert("duplicate_node_id"@.len() == 17);
}

/// Every warning of the cycle check is an `execution_cycle` warning.
proof fn lemma_cycle_reports_count(nodes: Seq<BlueprintNode>, edges: Seq<Edge>)
    ensures
        cycle_reports(cycle_diagnostics(nodes, edges)) == cycle_diagnostics(nodes, edges).len(),
    decreases nodes.len(),
{
    if nodes.len() > 0 {
        lemma_cycle_reports_count(nodes.drop_last(), edges);
        let d = cycle_diagnostics(nodes, edges);
        if d.len() == 1 && cycle_diagnostics(nodes.drop_last(), edges).len() == 0 {
            assert(d.drop_last() =~= Seq::<DiagnosticView>::empty());
        }
    }
}

/// Validation warns about execution cycles at most once in its whole report, and does so
/// exactly when a cycle can be reached from some node.
pub proof fn law_single_cycle_warning(b: Blueprint)
    ensures
        cycle_reports(validation_diagnostics(b)) <= 1,
        cycle_reports(validation_diagnostics(b)) == 1 <==> exists|i: int|
            0 <= i < b.nodes@.len() && reaches_cycle(
                execution_edges(b.nodes@, b.connections@),
                #[trigger] b.nodes@[i].id,
            ),
{
    reveal_strlit("invalid_magic");
    reveal_strlit("no_event_entry");
    reveal_strlit("execution_cycle");
    let nodes = b.nodes@;
    let edges = execution_edges(nodes, b.connections@);
    let m = magic_diagnostics(b.slide2d_engine@);
    let d = duplicate_diagnostics(nodes);
    let v = variable_diagnostics(nodes, nodes);
    let c = connection_diagnostics(nodes, b.connections@);
    let e = entry_diagnostics(nodes);
    let u = unreachable_diagnostics(nodes, edges, event_ids(nodes));
    let y = cycle_diagnostics(nodes, edges);
    assert(no_cycle_code(m));
    lemma_duplicate_cycle_free(nodes);
    lemma_variable_cycle_free(nodes, nodes);
    lemma_connection_cycle_free(nodes, b.connections@);
    assert(no_cycle_code(e));
    lemma_unreachable_cycle_free(nodes, edges, event_ids(nodes));
    lemma_no_cycle_code_concat(m, d);
    lemma_no_cycle_code_concat(m + d, v);
    lemma_no_cycle_code_concat(m + d + v, c);
    lemma_no_cycle_code_concat(m + d + v + c, e);
    lemma_no_cycle_code_concat(m + d + v + c + e, u);
    let rest = m + d + v + c + e + u;
    assert(validation_diagnostics(b) =~= rest + y);
    lemma_no_cycle_code_reports_nothing(rest);
    lemma_cycle_reports_concat(rest, y);
    lemma_cycle_reports_count(nodes, edges);
    law_cycle_warning(nodes, edges);
}

/// How many diagnostics of a list report a duplicate of an id.
pub open spec fn duplicate_reports(ds: Seq<DiagnosticView>, id: u64) -> nat
    decreases ds.len(),
{
    if ds.len() == 0 {
        0
    } else {
        duplicate_reports(ds.drop_last(), id) + if ds.last().1 == "duplicate_node_id"@
            && ds.last().3 == Some(id) {
            1nat
        } else {
            0nat
        }
    }
}

proof fn lemma_duplicate_reports_concat(a: Seq<DiagnosticView>, b: Seq<DiagnosticView>, id: u64)
    ensures
        duplicate_reports(a + b, id) == duplicate_reports(a, id) + duplicate_reports(b, id),
    decreases b.len(),
{
    if b.len() == 0 {
        assert(a + b =~= a);
    } else {
        lemma_duplicate_reports_concat(a, b.drop_last(), id);
        assert((a + b).drop_last() =~= a + b.drop_last());
    }
}

proof fn lemma_other_codes_report_nothing(ds: Seq<DiagnosticView>, id: u64)
    requires
        other_codes(ds),
    ensures
        duplicate_reports(ds, id) == 0,
    decreases ds.len(),
{
    reveal_strlit("duplicate_node_id");
    if ds.len() > 0 {
        assert(other_codes(ds.drop_last()));
        lemma_other_codes_report_nothing(ds.drop_last(), id);
        assert(ds[ds.len() - 1].1.len() != 17);
    }
}

proof fn lemma_other_codes_concat(a: Seq<DiagnosticView>, b: Seq<DiagnosticView>)
    requires
        other_codes(a),
        other_codes(b),
    ensures
        other_codes(a + b),
{
    assert forall|i: int| 0 <= i < (a + b).len() implies (#[trigger] (a + b)[i]).1.len() != 13
        && (a + b)[i].1.len() != 17 by {
        if i < a.len() {
            assert((a + b)[i] == a[i]);
        } else {
            assert((a + b)[i] == b[i - a.len()]);
        }
    }
}

proof fn lemma_variable_codes(all: Seq<BlueprintNode>, nodes: Seq<BlueprintNode>)
    ensures
        other_codes(variable_diagnostics(all, nodes)),
    decreases nodes.len(),
{
    reveal_strlit("empty_variable_name");
    reveal_strlit("undeclared_local_variable");
    if nodes.len() > 0 {
        lemma_variable_codes(all, nodes.drop_last());
        let n = nodes.last();
        assert forall|id: u64, name: Seq<char>| other_codes(#[trigger] name_diagnostics(id, name)) by {}
        assert forall|id: u64, name: Seq<char>| other_codes(#[trigger] local_diagnostics(all, id, name)) by {
            lemma_other_codes_concat(
                name_diagnostics(id, name),
                if !is_blank(name) && !is_declared(all, name) {
                    seq![
                        error_view(
                            "undeclared_local_variable"@,
                            "局部变量 "@ + name + " 未声明"@,
                            Some(id),
                        ),
                    ]
                } else {
                    seq![]
                },
            );
        }
        assert forall|a: Seq<DiagnosticView>, b: Seq<DiagnosticView>|
            other_codes(a) && other_codes(b) implies #[trigger] other_codes(a + b) by {
            lemma_other_codes_concat(a, b);
        }
        assert(other_codes(node_variable_diagnostics(all, n)));
        lemma_other_codes_concat(variable_diagnostics(all, nodes.drop_last()), node_variable_diagnostics(all, n));
    }
}

proof fn lemma_connection_codes(nodes: Seq<BlueprintNode>, connections: Seq<BlueprintConnection>)
    ensures
        other_codes(connection_diagnostics(nodes, connections)),
    decreases connections.len(),
{
    reveal_strlit("invalid_connection_node");
    reveal_strlit("invalid_connection_direction");
    reveal_strlit("invalid_connection_port");
    if connections.len() > 0 {
        lemma_connection_codes(nodes, connections.drop_last());
        let tail = match connection_diagnostic(nodes, connections.last()) {
            Some(d) => seq![d],
            None => seq![],
        };
        assert(other_codes(tail));
        lemma_other_codes_concat(connection_diagnostics(nodes, connections.drop_last()), tail);
    }
}

proof fn lemma_unreachable_codes(nodes: Seq<BlueprintNode>, edges: Seq<Edge>, events: Seq<u64>)
    ensures
        other_codes(unreachable_diagnostics(nodes, edges, events)),
    decreases nodes.len(),
{
    reveal_strlit("unreachable_from_event");
    if nodes.len() > 0 {
        lemma_unreachable_codes(nodes.drop_last(), edges, events);
        let n = nodes.last();
        let tail = if n.kind.has_input() && !reachable(edges, events, n.id) {
            seq![
                warning_view(
                    "unreachable_from_event"@,
                    "执行节点 "@ + decimal(n.id as nat) + " 无法从任何事件到达"@,
                    Some(n.id),
                ),
            ]
        } else {
            seq![]
        };
        assert(other_codes(tail));
        lemma_other_codes_concat(unreachable_diagnostics(nodes.drop_last(), edges, events), tail);
    }
}

proof fn lemma_cycle_codes(nodes: Seq<BlueprintNode>, edges: Seq<Edge>)
    ensures
        other_codes(cycle_diagnostics(nodes, edges)),
    decreases nodes.len(),
{
    reveal_strlit("execution_cycle");
    if nodes.len() > 0 {
        lemma_cycle_codes(nodes.drop_last(), edges);
    }
}

/// Duplicate reports: one for each id that two or more nodes carry, none for another.
proof fn lemma_duplicate_counts(nodes: Seq<BlueprintNode>, id: u64)
    ensures
        duplicate_reports(duplicate_diagnostics(nodes), id) == if id_count(nodes, id) >= 2 {
            1nat
        } else {
            0nat
        },
        forall|i: int| 0 <= i < duplicate_diagnostics(nodes).len() ==> (#[trigger] duplicate_diagnostics(
            nodes,
        )[i]).1 == "duplicate_node_id"@,
    decreases nodes.len(),
{
    if nodes.len() > 0 {
        let init = nodes.drop_last();
        lemma_duplicate_counts(init, id);
        let n = nodes.last();
        let tail = if id_count(init, n.id) == 1 {
            seq![error_view("duplicate_node_id"@, "节点ID "@ + decimal(n.id as nat) + " 重复"@, Some(n.id))]
        } else {
            seq![]
        };
        assert(duplicate_diagnostics(nodes) == duplicate_diagnostics(init) + tail);
        lemma_duplicate_reports_concat(duplicate_diagnostics(init), tail, id);
        assert(id_count(nodes, id) == id_count(init, id) + if n.id == id { 1nat } else { 0nat });
        if tail.len() == 1 {
            assert(tail.drop_last() =~= Seq::<DiagnosticView>::empty());
            assert(duplicate_reports(tail.drop_last(), id) == 0);
            assert(duplicate_reports(tail, id) == if n.id == id { 1nat } else { 0nat });
        } else {
            assert(duplicate_reports(tail, id) == 0);
        }
        assert forall|i: int| 0 <= i < duplicate_diagnostics(nodes).len() implies (#[trigger] duplicate_diagnostics(
            nodes,
        )[i]).1 == "duplicate_node_id"@ by {
            if i < duplicate_diagnostics(init).len() {
                assert(duplicate_diagnostics(nodes)[i] == duplicate_diagnostics(init)[i]);
            }
        }
    }
}

/// Validation reports an invalid file marker exactly when the marker is wrong, and reports
/// every node id that two or more nodes carry exactly once, and no other id as a
/// duplicate.
pub proof fn law_marker_and_duplicate_reports(b: Blueprint, id: u64)
    ensures
        (exists|i: int|
            0 <= i < validation_diagnostics(b).len() && (#[trigger] validation_diagnostics(b)[i]).1
                == "invalid_magic"@) <==> b.slide2d_engine@ != blueprint_format_text(),
        duplicate_reports(validation_diagnostics(b), id) == if id_count(b.nodes@, id) >= 2 {
            1nat
        } else {
            0nat
        },
{
    reveal_strlit("invalid_magic");
    reveal_strlit("duplicate_node_id");
    let nodes = b.nodes@;
    let edges = execution_edges(nodes, b.connections@);
    let m = magic_diagnostics(b.slide2d_engine@);
    let d = duplicate_diagnostics(nodes);
    let rest = variable_diagnostics(nodes, nodes) + connection_diagnostics(nodes, b.connections@)
        + entry_diagnostics(nodes) + unreachable_diagnostics(nodes, edges, event_ids(nodes))
        + cycle_diagnostics(nodes, edges);
    lemma_variable_codes(nodes, nodes);
    lemma_connection_codes(nodes, b.connections@);
    reveal_strlit("no_event_entry");
    assert(other_codes(entry_diagnostics(nodes)));
    lemma_unreachable_codes(nodes, edges, event_ids(nodes));
    lemma_cycle_codes(nodes, edges);
    lemma_other_codes_concat(variable_diagnostics(nodes, nodes), connection_diagnostics(nodes, b.connections@));
    lemma_other_codes_concat(
        variable_diagnostics(nodes, nodes) + connection_diagnostics(nodes, b.connections@),
        entry_diagnostics(nodes),
    );
    lemma_other_codes_concat(
        variable_diagnostics(nodes, nodes) + connection_diagnostics(nodes, b.connections@)
            + entry_diagnostics(nodes),
        unreachable_diagnostics(nodes, edges, event_ids(nodes)),
    );
    lemma_other_codes_concat(
        variable_diagnostics(nodes, nodes) + connection_diagnostics(nodes, b.connections@)
            + entry_diagnostics(nodes) + unreachable_diagnostics(nodes, edges, event_ids(nodes)),
        cycle_diagnostics(nodes, edges),
    );
    let all = validation_diagnostics(b);
    assert(all =~= m + d + rest);
    lemma_duplicate_counts(nodes, id);
    lemma_other_codes_report_nothing(rest, id);
    lemma_duplicate_reports_concat(m + d, rest, id);
    lemma_duplicate_reports_concat(m, d, id);
    assert("duplicate_node_id"@.len() == 17);
    assert("invalid_magic"@.len() == 13);
    if b.slide2d_engine@ != blueprint_format_text() {
        assert(m.len() == 1);
        assert(m.drop_last() =~= Seq::<DiagnosticView>::empty());
        assert(m[0].1 == "invalid_magic"@);
        assert(all[0] == m[0]);
        assert(validation_diagnostics(b)[0].1 == "invalid_magic"@);
        assert(m.last().1 != "duplicate_node_id"@);
        assert(duplicate_reports(m.drop_last(), id) == 0);
        assert(duplicate_reports(m, id) == 0);
    } else {
        assert(m =~= Seq::<DiagnosticView>::empty());
        assert(duplicate_reports(m, id) == 0);
        assert forall|i: int| 0 <= i < all.len() implies (#[trigger] all[i]).1 != "invalid_magic"@ by {
            if i < d.len() {
                assert(all[i] == d[i]);
                assert(d[i].1 == "duplicate_node_id"@);
            } else {
                assert(all[i] == rest[i - d.len()]);
                assert(rest[i - d.len()].1.len() != 13);
            }
        }
    }
}

/// A new, empty blueprint raises no diagnostic.
pub proof fn law_empty_blueprint_is_valid(b: Blueprint)
    requires
        b.slide2d_engine@ == blueprint_format_text(),
        b.nodes@.len() == 0,
        b.connections@.len() == 0,
    ensures
        validation_diagnostics(b).len() == 0,
{
    assert(execution_edges(b.nodes@, b.connections@) =~= Seq::<Edge>::empty());
    assert(event_ids(b.nodes@) =~= Seq::<u64>::empty());
    assert(validation_diagnostics(b) =~= Seq::<DiagnosticView>::empty());
}

/// Whether running a node looks up the object (local) variable `name`: setting a variable,
/// storing the tile under the object, comparing a local variable (not a global one), or a
/// plugin node that reads or writes an object variable.
pub open spec fn reads_local(kind: BlueprintNodeKind, name: Seq<char>) -> bool {
    match kind {
        BlueprintNodeKind::SetVariable { name: n, .. } => n@ == name,
        BlueprintNodeKind::DetectTile { variable_name } => variable_name@ == name,
        BlueprintNodeKind::IfCondition { variable_name, use_global, .. } => !use_global
            && variable_name@ == name,
        BlueprintNodeKind::CompareVariables { left_name, right_name, use_global, .. } => !use_global
            && (left_name@ == name || right_name@ == name),
        BlueprintNodeKind::PluginNode { behavior, variable_name, .. } => (behavior
            == PluginBehavior::PickupCheck || behavior == PluginBehavior::SetObjectVariable)
            && variable_name@ == name,
        _ => false,
    }
}

/// The error for a node reading a local variable that no node declares.
pub open spec fn undeclared_report(name: Seq<char>, id: u64) -> DiagnosticView {
    error_view("undeclared_local_variable"@, "局部变量 "@ + name + " 未声明"@, Some(id))
}

/// Whether no diagnostic of a list has a code of length 25 (as `undeclared_local_variable`).
pub open spec fn no_undeclared_code(ds: Seq<DiagnosticView>) -> bool {
    forall|i: int| 0 <= i < ds.len() ==> (#[trigger] ds[i]).1.len() != 25
}

proof fn lemma_contains_concat(a: Seq<DiagnosticView>, b: Seq<DiagnosticView>, d: DiagnosticView)
    ensures
        (a + b).contains(d) <==> a.contains(d) || b.contains(d),
{
    if (a + b).contains(d) {
        let i = choose|i: int| 0 <= i < (a + b).len() && (a + b)[i] == d;
        if i < a.len() {
            assert(a[i] == d);
        } else {
            assert(b[i - a.len()] == d);
        }
    }
    if a.contains(d) {
        let i = choose|i: int| 0 <= i < a.len() && a[i] == d;
        assert((a + b)[i] == d);
    }
    if b.contains(d) {
        let i = choose|i: int| 0 <= i < b.len() && b[i] == d;
        assert((a + b)[i + a.len()] == d);
    }
}

proof fn lemma_no_undeclared_concat(a: Seq<DiagnosticView>, b: Seq<DiagnosticView>)
    requires
        no_undeclared_code(a),
        no_undeclared_code(b),
    ensures
        no_undeclared_code(a + b),
{
    assert forall|i: int| 0 <= i < (a + b).len() implies (#[trigger] (a + b)[i]).1.len() != 25 by {
        if i < a.len() {
            assert((a + b)[i] == a[i]);
        } else {
            assert((a + b)[i] == b[i - a.len()]);
        }
    }
}

proof fn lemma_connection_no_undeclared(nodes: Seq<BlueprintNode>, connections: Seq<BlueprintConnection>)
    ensures
        no_undeclared_code(connection_diagnostics(nodes, connections)),
    decreases connections.len(),
{
    reveal_strlit("invalid_connection_node");
    reveal_strlit("invalid_connection_direction");
    reveal_strlit("invalid_connection_port");
    if connections.len() > 0 {
        lemma_connection_no_undeclared(nodes, connections.drop_last());
        let tail = match connection_diagnostic(nodes, connections.last()) {
            Some(d) => seq![d],
            None => seq![],
        };
        assert(no_undeclared_code(tail));
        lemma_no_undeclared_concat(connection_diagnostics(nodes, connections.drop_last()), tail);
    }
}

proof fn lemma_unreachable_no_undeclared(nodes: Seq<BlueprintNode>, edges: Seq<Edge>, events: Seq<u64>)
    ensures
        no_undeclared_code(unreachable_diagnostics(nodes, edges, events)),
    decreases nodes.len(),
{
    reveal_strlit("unreachable_from_event");
    if nodes.len() > 0 {
        lemma_unreachable_no_undeclared(nodes.drop_last(), edges, events);
        let n = nodes.last();
        let tail = if n.kind.has_input() && !reachable(edges, events, n.id) {
            seq![
                warning_view(
                    "unreachable_from_event"@,
                    "执行节点 "@ + decimal(n.id as nat) + " 无法从任何事件到达"@,
                    Some(n.id),
                ),
            ]
        } else {
            seq![]
        };
        assert(no_undeclared_code(tail));
        lemma_no_undeclared_concat(unreachable_diagnostics(nodes.drop_last(), edges, events), tail);
    }
}

proof fn lemma_cycle_no_undeclared(nodes: Seq<BlueprintNode>, edges: Seq<Edge>)
    ensures
        no_undeclared_code(cycle_diagnostics(nodes, edges)),
    decreases nodes.len(),
{
    reveal_strlit("execution_cycle");
    if nodes.len() > 0 {
        lemma_cycle_no_undeclared(nodes.drop_last(), edges);
    }
}

/// The undeclared-variable error a local variable reference raises, if any.
spec fn undeclared_extra(all: Seq<BlueprintNode>, nm: Seq<char>, id: u64) -> Seq<DiagnosticView> {
    if !is_blank(nm) && !is_declared(all, nm) {
        seq![undeclared_report(nm, id)]
    } else {
        seq![]
    }
}

/// The undeclared-variable errors one node raises: exactly one for each local variable it
/// reads that has a name and that no node declares.
proof fn lemma_node_undeclared(all: Seq<BlueprintNode>, n: BlueprintNode)
    ensures
        forall|d: DiagnosticView|
            node_variable_diagnostics(all, n).contains(d) && d.1 == "undeclared_local_variable"@
                ==> exists|name: Seq<char>|
                reads_local(n.kind, name) && !is_blank(name) && !is_declared(all, name) && d
                    == #[trigger] undeclared_report(name, n.id),
        forall|name: Seq<char>|
            reads_local(n.kind, name) && !is_blank(name) && !is_declared(all, name)
                ==> node_variable_diagnostics(all, n).contains(#[trigger] undeclared_report(name, n.id)),
{
    reveal_strlit("empty_variable_name");
    reveal_strlit("undeclared_local_variable");
    let id = n.id;
    assert forall|nm: Seq<char>, d: DiagnosticView|
        #[trigger] name_diagnostics(id, nm).contains(d) implies d.1 != "undeclared_local_variable"@ by {
        let i = choose|i: int| 0 <= i < name_diagnostics(id, nm).len() && name_diagnostics(id, nm)[i] == d;
        assert(d.1 == "empty_variable_name"@);
    }
    assert forall|nm: Seq<char>, d: DiagnosticView|
        #[trigger] local_diagnostics(all, id, nm).contains(d) && d.1 == "undeclared_local_variable"@
            implies !is_blank(nm) && !is_declared(all, nm) && d == undeclared_report(nm, id) by {
        lemma_contains_concat(name_diagnostics(id, nm), undeclared_extra(all, nm, id), d);
        assert(local_diagnostics(all, id, nm) == name_diagnostics(id, nm) + undeclared_extra(all, nm, id));
        if undeclared_extra(all, nm, id).contains(d) {
            let i = choose|i: int|
                0 <= i < undeclared_extra(all, nm, id).len() && #[trigger] undeclared_extra(all, nm, id)[i]
                    == d;
        }
    }
    assert forall|nm: Seq<char>|
        !is_blank(nm) && !is_declared(all, nm) implies #[trigger] local_diagnostics(all, id, nm).contains(
        undeclared_report(nm, id),
    ) by {
        assert(local_diagnostics(all, id, nm) == name_diagnostics(id, nm) + undeclared_extra(all, nm, id));
        assert(undeclared_extra(all, nm, id)[0] == undeclared_report(nm, id));
        lemma_contains_concat(name_diagnostics(id, nm), undeclared_extra(all, nm, id), undeclared_report(nm, id));
    }
    assert forall|x: Seq<DiagnosticView>, y: Seq<DiagnosticView>, d: DiagnosticView|
        #[trigger] (x + y).contains(d) <==> x.contains(d) || y.contains(d) by {
        lemma_contains_concat(x, y, d);
    }
    assert forall|d: DiagnosticView|
        node_variable_diagnostics(all, n).contains(d) && d.1 == "undeclared_local_variable"@
            implies exists|name: Seq<char>|
            reads_local(n.kind, name) && !is_blank(name) && !is_declared(all, name) && d
                == #[trigger] undeclared_report(name, n.id) by {
        match n.kind {
            BlueprintNodeKind::SetVariable { name, .. } => {
                assert(reads_local(n.kind, name@));
            },
            BlueprintNodeKind::DetectTile { variable_name } => {
                assert(reads_local(n.kind, variable_name@));
            },
            BlueprintNodeKind::IfCondition { variable_name, use_global, .. } => {
                assert(reads_local(n.kind, variable_name@));
            },
            BlueprintNodeKind::CompareVariables { left_name, right_name, use_global, .. } => {
                if local_diagnostics(all, id, left_name@).contains(d) {
                    assert(reads_local(n.kind, left_name@));
                } else {
                    assert(reads_local(n.kind, right_name@));
                }
            },
            BlueprintNodeKind::PluginNode { behavior, variable_name, .. } => {
                assert(reads_local(n.kind, variable_name@));
            },
            _ => {},
        }
    }
    assert forall|name: Seq<char>|
        reads_local(n.kind, name) && !is_blank(name) && !is_declared(all, name)
            implies node_variable_diagnostics(all, n).contains(#[trigger] undeclared_report(name, n.id)) by {
        match n.kind {
            BlueprintNodeKind::CompareVariables { left_name, right_name, use_global, .. } => {
                if left_name@ == name {
                    assert(local_diagnostics(all, id, left_name@).contains(undeclared_report(name, id)));
                } else {
                    assert(local_diagnostics(all, id, right_name@).contains(undeclared_report(name, id)));
                }
            },
            _ => {},
        }
    }
}

/// Every variable error of a run of nodes comes from one of its nodes, and every error of
/// a node of the run is in the run's list.
proof fn lemma_variable_sources(all: Seq<BlueprintNode>, nodes: Seq<BlueprintNode>)
    ensures
        forall|d: DiagnosticView|
            #[trigger] variable_diagnostics(all, nodes).contains(d) ==> exists|k: int|
                0 <= k < nodes.len() && node_variable_diagnostics(all, #[trigger] nodes[k]).contains(d),
        forall|k: int, d: DiagnosticView|
            0 <= k < nodes.len() && node_variable_diagnostics(all, #[trigger] nodes[k]).contains(d)
                ==> #[trigger] variable_diagnostics(all, nodes).contains(d),
    decreases nodes.len(),
{
    if nodes.len() > 0 {
        let init = nodes.drop_last();
        lemma_variable_sources(all, init);
        let last = nodes.last();
        assert forall|d: DiagnosticView|
            #[trigger] variable_diagnostics(all, nodes).contains(d) implies exists|k: int|
                0 <= k < nodes.len() && node_variable_diagnostics(all, #[trigger] nodes[k]).contains(d) by {
            lemma_contains_concat(variable_diagnostics(all, init), node_variable_diagnostics(all, last), d);
            if variable_diagnostics(all, init).contains(d) {
                let k = choose|k: int|
                    0 <= k < init.len() && node_variable_diagnostics(all, #[trigger] init[k]).contains(d);
                assert(nodes[k] == init[k]);
            } else {
                assert(nodes[nodes.len() - 1] == last);
            }
        }
        assert forall|k: int, d: DiagnosticView|
            0 <= k < nodes.len() && node_variable_diagnostics(all, #[trigger] nodes[k]).contains(d)
                implies #[trigger] variable_diagnostics(all, nodes).contains(d) by {
            lemma_contains_concat(variable_diagnostics(all, init), node_variable_diagnostics(all, last), d);
            if k < init.len() {
                assert(init[k] == nodes[k]);
            }
        }
    }
}

/// Two nodes carrying an id that occurs once are the same node.
proof fn lemma_unique_id(nodes: Seq<BlueprintNode>, a: int, b: int)
    requires
        0 <= a < nodes.len(),
        0 <= b < nodes.len(),
        nodes[a].id == nodes[b].id,
        id_count(nodes, nodes[a].id) == 1,
    ensures
        a == b,
    decreases nodes.len(),
{
    let id = nodes[a].id;
    let init = nodes.drop_last();
    let last = nodes.len() - 1;
    if a != last && b != last {
        assert(init[a] == nodes[a] && init[b] == nodes[b]);
        if nodes[last].id == id {
            lemma_id_counted(init, a);
        } else {
            lemma_unique_id(init, a, b);
        }
    } else if a != last || b != last {
        let other = if a == last { b } else { a };
        assert(init[other] == nodes[other]);
        lemma_id_counted(init, other);
    }
}

/// A node's id is counted at least once.
proof fn lemma_id_counted(nodes: Seq<BlueprintNode>, a: int)
    requires
        0 <= a < nodes.len(),
    ensures
        id_count(nodes, nodes[a].id) >= 1,
    decreases nodes.len(),
{
    if a < nodes.len() - 1 {
        assert(nodes.drop_last()[a] == nodes[a]);
        lemma_id_counted(nodes.drop_last(), a);
    }
}

/// Validation reports an undeclared local variable for a node (whose id no other node
/// carries) exactly for the local variables the node reads that have a name and that no
/// node declares: a node reading only global variables, such as a condition on a global,
/// gets no such report whatever is declared, and a node reading an undeclared local
/// variable always gets one.
#[verifier::rlimit(40)]
pub proof fn law_undeclared_variable_reports(b: Blueprint, k: int)
    requires
        0 <= k < b.nodes@.len(),
        id_count(b.nodes@, b.nodes@[k].id) == 1,
    ensures
        forall|i: int|
            0 <= i < validation_diagnostics(b).len() && (#[trigger] validation_diagnostics(b)[i]).1
                == "undeclared_local_variable"@ && validation_diagnostics(b)[i].3 == Some(
                b.nodes@[k].id,
            ) ==> exists|name: Seq<char>|
                reads_local(b.nodes@[k].kind, name) && !is_blank(name) && !is_declared(b.nodes@, name)
                    && validation_diagnostics(b)[i] == #[trigger] undeclared_report(name, b.nodes@[k].id),
        forall|name: Seq<char>|
            reads_local(b.nodes@[k].kind, name) && !is_blank(name) && !is_declared(b.nodes@, name)
                ==> validation_diagnostics(b).contains(#[trigger] undeclared_report(name, b.nodes@[k].id)),
{
    reveal_strlit("invalid_magic");
    reveal_strlit("no_event_entry");
    reveal_strlit("undeclared_local_variable");
    let nodes = b.nodes@;
    let node = nodes[k];
    let id = node.id;
    let edges = execution_edges(nodes, b.connections@);
    let m = magic_diagnostics(b.slide2d_engine@);
    let d = duplicate_diagnostics(nodes);
    let v = variable_diagnostics(nodes, nodes);
    let rest = connection_diagnostics(nodes, b.connections@) + entry_diagnostics(nodes)
        + unreachable_diagnostics(nodes, edges, event_ids(nodes)) + cycle_diagnostics(nodes, edges);
    let all = validation_diagnostics(b);
    assert(all =~= (m + d) + v + rest);
    lemma_duplicate_counts(nodes, 0);
    reveal_strlit("duplicate_node_id");
    assert("duplicate_node_id"@.len() == 17);
    assert(no_undeclared_code(m));
    assert(no_undeclared_code(d));
    lemma_no_undeclared_concat(m, d);
    lemma_connection_no_undeclared(nodes, b.connections@);
    assert(no_undeclared_code(entry_diagnostics(nodes)));
    lemma_unreachable_no_undeclared(nodes, edges, event_ids(nodes));
    lemma_cycle_no_undeclared(nodes, edges);
    lemma_no_undeclared_concat(connection_diagnostics(nodes, b.connections@), entry_diagnostics(nodes));
    lemma_no_undeclared_concat(
        connection_diagnostics(nodes, b.connections@) + entry_diagnostics(nodes),
        unreachable_diagnostics(nodes, edges, event_ids(nodes)),
    );
    lemma_no_undeclared_concat(
        connection_diagnostics(nodes, b.connections@) + entry_diagnostics(nodes) + unreachable_diagnostics(
            nodes,
            edges,
            event_ids(nodes),
        ),
        cycle_diagnostics(nodes, edges),
    );
    lemma_variable_sources(nodes, nodes);
    assert("undeclared_local_variable"@.len() == 25);
    assert forall|i: int|
        0 <= i < all.len() && (#[trigger] all[i]).1 == "undeclared_local_variable"@ && all[i].3 == Some(id)
            implies exists|name: Seq<char>|
            reads_local(node.kind, name) && !is_blank(name) && !is_declared(nodes, name) && all[i]
                == #[trigger] undeclared_report(name, id) by {
        let x = all[i];
        let md = m + d;
        assert(i >= md.len()) by {
            if i < md.len() {
                assert(all[i] == md[i]);
            }
        }
        assert(i < md.len() + v.len()) by {
            if i >= md.len() + v.len() {
                assert(all[i] == rest[i - md.len() - v.len()]);
            }
        }
        assert(all[i] == v[i - md.len()]);
        assert(v.contains(x));
        let j = choose|j: int| 0 <= j < nodes.len() && node_variable_diagnostics(nodes, #[trigger] nodes[j]).contains(x);
        lemma_node_undeclared(nodes, nodes[j]);
        let name = choose|name: Seq<char>|
            reads_local(nodes[j].kind, name) && !is_blank(name) && !is_declared(nodes, name) && x
                == #[trigger] undeclared_report(name, nodes[j].id);
        assert(nodes[j].id == id);
        lemma_unique_id(nodes, j, k);
    }
    assert forall|name: Seq<char>|
        reads_local(node.kind, name) && !is_blank(name) && !is_declared(nodes, name)
            implies all.contains(#[trigger] undeclared_report(name, id)) by {
        lemma_node_undeclared(nodes, node);
        assert(node_variable_diagnostics(nodes, nodes[k]).contains(undeclared_report(name, id)));
        assert(v.contains(undeclared_report(name, id)));
        lemma_contains_concat(m + d, v, undeclared_report(name, id));
        lemma_contains_concat((m + d) + v, rest, undeclared_report(name, id));
    }
}

/// A connection naming an id that no node carries is reported as referring to a missing
/// node.
pub proof fn law_connection_to_missing_node(nodes: Seq<BlueprintNode>, c: BlueprintConnection)
    requires
        (forall|i: int| 0 <= i < nodes.len() ==> #[trigger] nodes[i].id != c.from_node_id) || (forall|
            i: int,
        | 0 <= i < nodes.len() ==> #[trigger] nodes[i].id != c.to_node_id),
    ensures
        connection_diagnostic(nodes, c) matches Some(d) && d.0 == Severity::Error && d.1
            == "invalid_connection_node"@,
{
    lemma_last_index(nodes, c.from_node_id);
    lemma_last_index(nodes, c.to_node_id);
    if last_index(nodes, c.from_node_id) >= 0 && last_index(nodes, c.to_node_id) >= 0 {
        assert(nodes[last_index(nodes, c.from_node_id)].id == c.from_node_id);
        assert(nodes[last_index(nodes, c.to_node_id)].id == c.to_node_id);
    }
}

/// A connection between two nodes (each the only node with its id) is reported as going
/// the wrong way when its source has no execution output or its target no execution input;
/// else as leaving from a wrong port when the source cannot continue on that port; else it
/// raises nothing.
pub proof fn law_connection_between_nodes(
    nodes: Seq<BlueprintNode>,
    c: BlueprintConnection,
    a: int,
    b: int,
)
    requires
        0 <= a < nodes.len(),
        0 <= b < nodes.len(),
        nodes[a].id == c.from_node_id,
        nodes[b].id == c.to_node_id,
        id_count(nodes, c.from_node_id) == 1,
        id_count(nodes, c.to_node_id) == 1,
    ensures
        !nodes[a].kind.has_output() || !nodes[b].kind.has_input() ==> (connection_diagnostic(
            nodes,
            c,
        ) matches Some(d) && d.1 == "invalid_connection_direction"@ && d.3 == Some(c.from_node_id)),
        nodes[a].kind.has_output() && nodes[b].kind.has_input() && !port_valid(
            nodes[a].kind,
            c.from_port,
        ) ==> (connection_diagnostic(nodes, c) matches Some(d) && d.1 == "invalid_connection_port"@
            && d.3 == Some(c.from_node_id)),
        nodes[a].kind.has_output() && nodes[b].kind.has_input() && port_valid(
            nodes[a].kind,
            c.from_port,
        ) ==> connection_diagnostic(nodes, c) is None,
{
    lemma_last_index(nodes, c.from_node_id);
    lemma_last_index(nodes, c.to_node_id);
    let s = last_index(nodes, c.from_node_id);
    let t = last_index(nodes, c.to_node_id);
    lemma_id_counted(nodes, a);
    lemma_id_counted(nodes, b);
    lemma_unique_id(nodes, s, a);
    lemma_unique_id(nodes, t, b);
}

/// Branching nodes (conditions and the pickup check) continue on ports 1 and 2 only; every
/// other node on port 0 only.
pub proof fn law_valid_ports(kind: BlueprintNodeKind, port: u8)
    ensures
        kind.branches() ==> (port_valid(kind, port) <==> port == 1 || port == 2),
        !kind.branches() ==> (port_valid(kind, port) <==> port == 0),
        (kind is IfCondition || kind is CompareVariables) ==> kind.branches(),
{
}

} // verus!
