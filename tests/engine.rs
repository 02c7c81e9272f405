use omnios_engine::input::ShortcutsPlugin;
use omnios_engine::a11y::{AriaRole, TreeGenerator};
use omnios_engine::autonomous::{AutonomousEngine, Variant};
use omnios_engine::document::{CommandAction, DesignerElement, HyperCommand, LogicVariable, ProjectState, StateStore};
use omnios_engine::layout::{absolute_positions, build_plan, effective_style, map_style, resolve_dimension, DisplayMode, FlexDirection, PositionMode};
use omnios_engine::logic::{next_port, LogicError, LogicKernel, UnifiedBlueprint, UnifiedConnection, UnifiedNode};
use omnios_engine::native::NativeCompiler;
use omnios_engine::optimizer::BundleAnalyzer;
use omnios_engine::plugins::{Action, BehaviorNode, BehaviorTreePlugin, RestAPIPlugin, Sequence, StateMachinePlugin, Status, WebSocketPlugin};
use omnios_engine::spatial::{LayoutSnapshot, SpatialIndex};
use omnios_engine::style::{parse_dimension, parse_length_percentage, parse_length_percentage_auto, parse_int, Dimension, LengthPercentage, LengthPercentageAuto};
use omnios_engine::value::{PropMap, Value};
use omnios_engine::access::{AuthGuard, SecretStore};
use omnios_engine::sdk::PluginContext;

fn text(s: &str) -> Value {
    Value::Text(s.to_string())
}

fn props(pairs: &[(&str, Value)]) -> PropMap {
    let mut m = PropMap::new();
    for (k, v) in pairs {
        m.insert(k.to_string(), v.duplicate());
    }
    m
}

fn element(id: &str, ty: &str, parent: Option<&str>, children: &[&str]) -> DesignerElement {
    DesignerElement {
        id: id.to_string(),
        element_type: ty.to_string(),
        parent_id: parent.map(|p| p.to_string()),
        children: if children.is_empty() { None } else { Some(children.iter().map(|c| c.to_string()).collect()) },
        styles: None,
        tablet_styles: None,
        mobile_styles: None,
        layout_mode: None,
        blueprint_id: None,
        variable_bindings: None,
        name: None,
        content: None,
        props: PropMap::new(),
    }
}

fn project(elements: Vec<DesignerElement>) -> ProjectState {
    let mut table = omnios_engine::value::Keyed::new();
    for e in elements {
        table.insert(e.id.clone(), e);
    }
    ProjectState {
        name: "p".to_string(),
        elements: table,
        global_variables: omnios_engine::value::Keyed::new(),
        active_page_id: None,
        view_mode: "desktop".to_string(),
    }
}

fn store_with(elements: Vec<DesignerElement>) -> StateStore {
    let mut s = StateStore::new();
    s.load_snapshot(project(elements));
    s
}

fn command(action: CommandAction, target: &str) -> HyperCommand {
    HyperCommand { id: "c1".to_string(), action, target_id: target.to_string(), timestamp: 0 }
}

fn children_of(s: &StateStore, id: &str) -> Vec<String> {
    s.element(id).unwrap().children.unwrap_or_default()
}

#[test]
fn add_element_links_once_under_parent() {
    let mut s = store_with(vec![element("root", "frame", None, &["a"]), element("a", "box", Some("root"), &[])]);
    let added = s.apply(command(
        CommandAction::AddElement { element: element("b", "box", None, &[]), parent_id: "root".to_string(), index: Some(0) },
        "b",
    ));
    assert!(added);
    let kids = children_of(&s, "root");
    assert_eq!(kids, vec!["b".to_string(), "a".to_string()]);
    assert_eq!(kids.iter().filter(|k| k.as_str() == "b").count(), 1);
    assert_eq!(s.element("b").unwrap().parent_id, Some("root".to_string()));
    assert_eq!(s.pull_dirty(), vec!["root".to_string(), "b".to_string()]);
    assert!(s.pull_dirty().is_empty());
}

#[test]
fn add_element_past_end_appends() {
    let mut s = store_with(vec![element("root", "frame", None, &["a"]), element("a", "box", Some("root"), &[])]);
    s.apply(command(
        CommandAction::AddElement { element: element("b", "box", None, &[]), parent_id: "root".to_string(), index: Some(9) },
        "b",
    ));
    assert_eq!(children_of(&s, "root"), vec!["a".to_string(), "b".to_string()]);
}

#[test]
fn add_element_with_missing_parent_leaves_it_dangling() {
    let mut s = store_with(vec![element("root", "frame", None, &[])]);
    assert!(s.apply(command(
        CommandAction::AddElement { element: element("x", "box", Some("ghost"), &[]), parent_id: "ghost".to_string(), index: None },
        "x",
    )));
    let x = s.element("x").unwrap();
    assert_eq!(x.parent_id, Some("ghost".to_string()));
    assert_eq!(x.element_type, "box");
    assert!(children_of(&s, "root").is_empty());
}

#[test]
fn remove_element_orphans_children() {
    let mut s = store_with(vec![
        element("root", "frame", None, &["a"]),
        element("a", "box", Some("root"), &["c"]),
        element("c", "text", Some("a"), &[]),
    ]);
    assert!(s.apply(command(CommandAction::RemoveElement, "a")));
    assert!(s.element("a").is_none());
    assert!(children_of(&s, "root").is_empty());
    assert!(s.element("c").is_some());
    assert_eq!(s.pull_dirty(), vec!["root".to_string()]);
    assert!(!s.apply(command(CommandAction::RemoveElement, "a")));
}

#[test]
fn reorder_clamps_index() {
    let mut s = store_with(vec![
        element("root", "frame", None, &["a", "b", "c"]),
        element("a", "box", Some("root"), &[]),
        element("b", "box", Some("root"), &[]),
        element("c", "box", Some("root"), &[]),
    ]);
    assert!(s.apply(command(CommandAction::ReorderElement { parent_id: "root".to_string(), new_index: 99 }, "a")));
    assert_eq!(children_of(&s, "root"), vec!["b".to_string(), "c".to_string(), "a".to_string()]);
    assert!(!s.apply(command(CommandAction::ReorderElement { parent_id: "root".to_string(), new_index: 0 }, "zz")));
}

#[test]
fn update_style_and_prop() {
    let mut s = store_with(vec![element("root", "frame", None, &[])]);
    assert!(s.apply(command(
        CommandAction::UpdateStyle { updates: props(&[("width", text("50%"))]), view_mode: "mobile".to_string() },
        "root",
    )));
    let e = s.element("root").unwrap();
    assert!(e.styles.is_none());
    assert!(e.mobile_styles.unwrap().get("width").unwrap().equals(&text("50%")));
    assert!(s.apply(command(CommandAction::UpdateProp { prop: "layoutMode".to_string(), value: Value::Int(3) }, "root")));
    assert_eq!(s.element("root").unwrap().layout_mode, Some("safety".to_string()));
    assert!(s.apply(command(CommandAction::UpdateProp { prop: "color".to_string(), value: text("red") }, "root")));
    assert!(s.element("root").unwrap().props.get("color").unwrap().equals(&text("red")));
    assert!(!s.apply(command(CommandAction::UpdateProp { prop: "name".to_string(), value: text("n") }, "nope")));
    assert!(!s.apply(command(CommandAction::Unknown, "root")));
}

#[test]
fn apply_without_document_fails() {
    let mut s = StateStore::new();
    assert!(!s.apply(command(CommandAction::RemoveElement, "root")));
}

#[test]
fn variables_set_and_get() {
    let mut p = project(vec![]);
    p.global_variables.insert(
        "v1".to_string(),
        LogicVariable { id: "v1".to_string(), name: "count".to_string(), var_type: "number".to_string(), value: Value::Int(1) },
    );
    let mut s = StateStore::new();
    s.load_snapshot(p);
    assert!(s.set_variable("v1", Value::Int(7)));
    assert!(s.get_variable("v1").unwrap().equals(&Value::Int(7)));
    assert!(!s.set_variable("v2", Value::Null));
    assert!(s.get_variable("v2").is_none());
}

#[test]
fn percent_width_resolves_against_container() {
    let m = props(&[("width", text("50%"))]);
    let st = map_style(&m, &None);
    assert_eq!(st.width, Dimension::Percent(50));
    assert_eq!(resolve_dimension(st.width, 200), Some(100));
    assert_eq!(resolve_dimension(Dimension::Points(30), 200), Some(30));
    assert_eq!(resolve_dimension(Dimension::Auto, 200), None);
    assert_eq!(resolve_dimension(Dimension::Percent(-50), 3), Some(-1));
}

#[test]
fn dimension_parsing() {
    assert_eq!(parse_dimension(&text("auto")), Dimension::Auto);
    assert_eq!(parse_dimension(&text("12px")), Dimension::Points(12));
    assert_eq!(parse_dimension(&text("-4px")), Dimension::Points(-4));
    assert_eq!(parse_dimension(&text("25%")), Dimension::Percent(25));
    assert_eq!(parse_dimension(&text("40")), Dimension::Points(40));
    assert_eq!(parse_dimension(&text("wide")), Dimension::Auto);
    assert_eq!(parse_dimension(&text("xpx")), Dimension::Points(0));
    assert_eq!(parse_dimension(&Value::Int(8)), Dimension::Points(8));
    assert_eq!(parse_dimension(&Value::Bool(true)), Dimension::Auto);
    assert_eq!(parse_length_percentage(&text("7")), LengthPercentage::Points(7));
    assert_eq!(parse_length_percentage(&text("bad")), LengthPercentage::Points(0));
    assert_eq!(parse_length_percentage(&text("10%")), LengthPercentage::Percent(10));
    assert_eq!(parse_length_percentage_auto(&text("auto")), LengthPercentageAuto::Auto);
    assert_eq!(parse_int("-0012"), Some(-12));
    assert_eq!(parse_int("99999999999"), None);
    assert_eq!(parse_int(""), None);
}

#[test]
fn style_mapping_and_breakpoints() {
    let mut e = element("root", "frame", None, &[]);
    e.styles = Some(props(&[("display", text("grid")), ("flexDirection", text("column")), ("left", text("5px"))]));
    e.tablet_styles = Some(props(&[("display", text("none"))]));
    e.layout_mode = Some("freedom".to_string());
    let desk = map_style(&effective_style(&e, "desktop"), &e.layout_mode);
    assert_eq!(desk.display, DisplayMode::Grid);
    assert_eq!(desk.flex_direction, FlexDirection::Column);
    assert_eq!(desk.position, PositionMode::Absolute);
    assert_eq!(desk.left, LengthPercentageAuto::Points(5));
    let tab = map_style(&effective_style(&e, "tablet"), &e.layout_mode);
    assert_eq!(tab.display, DisplayMode::Hidden);
    let plain = map_style(&effective_style(&e, "desktop"), &None);
    assert_eq!(plain.position, PositionMode::Relative);
    assert_eq!(plain.left, LengthPercentageAuto::Auto);
}

#[test]
fn plan_is_children_first_and_repeatable() {
    let p = project(vec![
        element("root", "frame", None, &["a", "missing", "b"]),
        element("a", "box", Some("root"), &[]),
        element("b", "box", Some("root"), &[]),
    ]);
    let plan = build_plan(&p).unwrap();
    let ids: Vec<String> = plan.nodes.iter().map(|n| n.id.clone()).collect();
    assert_eq!(ids, vec!["a".to_string(), "b".to_string(), "root".to_string()]);
    assert_eq!(plan.nodes[2].children, vec![0, 1]);
    assert_eq!(plan.parents, vec![Some(2), Some(2), None]);
    assert_eq!(plan.nodes[2].level, 3);
    assert_eq!(plan.nodes[0].level, 2);
    assert!(!plan.nodes[2].truncated);
    let again = build_plan(&p).unwrap();
    assert_eq!(again.parents, plan.parents);
    let xs = absolute_positions(&plan.parents, &vec![5, 7, 10]);
    assert_eq!(xs, vec![15, 17, 10]);
    assert_eq!(absolute_positions(&plan.parents, &vec![5, 7, 10]), xs);
    assert!(build_plan(&project(vec![element("a", "box", None, &[])])).is_none());
}

fn index_with(boxes: &[(&str, i64, i64, i64, i64)]) -> SpatialIndex {
    let mut ix = SpatialIndex::new();
    for (id, x, y, w, h) in boxes {
        ix.insert_or_update(id.to_string(), *x, *y, *w, *h);
    }
    ix
}

#[test]
fn hit_test_prefers_smallest_box() {
    let ix = index_with(&[("root", 0, 0, 100, 100), ("child", 10, 10, 20, 20), ("other", 60, 60, 10, 10)]);
    assert_eq!(ix.hit_test(15, 15), Some("child".to_string()));
    assert_eq!(ix.hit_test(65, 65), Some("other".to_string()));
    assert_eq!(ix.hit_test(50, 5), Some("root".to_string()));
    assert_eq!(ix.hit_test(500, 500), None);
}

#[test]
fn hit_test_single_box_returns_it() {
    let ix = index_with(&[("a", 0, 0, 10, 10), ("b", 20, 20, 10, 10)]);
    assert_eq!(ix.hit_test(5, 5), Some("a".to_string()));
}

#[test]
fn hit_test_equal_areas_last_inserted_wins() {
    let ix = index_with(&[("first", 0, 0, 10, 10), ("second", 5, 5, 10, 10)]);
    assert_eq!(ix.hit_test(7, 7), Some("second".to_string()));
}

#[test]
fn index_update_remove_and_area_query() {
    let mut ix = index_with(&[("a", 0, 0, 10, 10), ("b", 50, 50, 10, 10)]);
    ix.insert_or_update("a".to_string(), 100, 100, 5, 5);
    assert_eq!(ix.get_bounds("a"), Some((100, 100, 5, 5)));
    let mut hits = ix.query_area(40, 40, 100, 100);
    hits.sort();
    assert_eq!(hits, vec!["a".to_string(), "b".to_string()]);
    ix.remove("b");
    assert!(ix.query_one("b").is_none());
    assert_eq!(ix.query_area(40, 40, 20, 20), Vec::<String>::new());
    ix.clear();
    assert!(ix.get_bounds("a").is_none());
}

#[test]
fn group_bounds_union() {
    let ix = index_with(&[("a", 0, 0, 10, 10), ("b", 20, 5, 10, 30)]);
    let ids = vec!["a".to_string(), "b".to_string(), "zz".to_string()];
    assert_eq!(ix.group_bounds(&ids), Some((0, 0, 30, 35)));
    assert_eq!(ix.group_bounds(&vec!["zz".to_string()]), None);
}

#[test]
fn constrain_drag_stays_in_parent() {
    let ix = index_with(&[("parent", 0, 0, 100, 100), ("child", 10, 10, 20, 30)]);
    assert_eq!(ix.constrain_drag("child", Some("parent"), -50, 500), (0, 70));
    assert_eq!(ix.constrain_drag("child", Some("parent"), 40, 40), (40, 40));
    assert_eq!(ix.constrain_drag("child", None, -50, 500), (-50, 500));
    assert_eq!(ix.constrain_drag("child", Some("nobody"), -50, 500), (-50, 500));
}

#[test]
fn snapping_within_threshold() {
    let ix = index_with(&[("target", 100, 100, 50, 50), ("me", 0, 0, 20, 20)]);
    let r = ix.find_snap_targets("me", 97, 300, 20, 20, 5);
    assert_eq!(r.x, 100);
    assert_eq!(r.y, 300);
    assert_eq!(r.guides.len(), 1);
    assert_eq!(r.guides[0].orientation, "vertical");
    assert_eq!(r.guides[0].value, 100);
    let c = ix.find_snap_targets("me", 114, 114, 20, 20, 5);
    assert_eq!((c.x, c.y), (115, 115));
    assert_eq!(c.guides.len(), 2);
}

#[test]
fn snapping_far_keeps_input() {
    let ix = index_with(&[("target", 100, 100, 50, 50)]);
    let r = ix.find_snap_targets("me", 300, 400, 20, 20, 5);
    assert_eq!((r.x, r.y), (300, 400));
    assert!(r.guides.is_empty());
    let edge = ix.find_snap_targets("me", 95, 400, 0, 20, 5);
    assert_eq!(edge.x, 100);
    let past = ix.find_snap_targets("me", 94, 400, 0, 20, 5);
    assert_eq!(past.x, 94);
}

#[test]
fn drift_flags_beyond_tolerance() {
    let ix = index_with(&[("a", 0, 0, 10, 10), ("b", 0, 0, 10, 10), ("c", 0, 0, 10, 10)]);
    let reference = vec![
        LayoutSnapshot { id: "a".to_string(), x: 1, y: 1, width: 10, height: 10 },
        LayoutSnapshot { id: "b".to_string(), x: 2, y: 2, width: 10, height: 10 },
        LayoutSnapshot { id: "c".to_string(), x: 0, y: 0, width: 13, height: 10 },
        LayoutSnapshot { id: "zz".to_string(), x: 50, y: 0, width: 13, height: 10 },
    ];
    assert_eq!(ix.flagged_elements(&reference), vec!["b".to_string(), "c".to_string()]);
}

fn node(id: &str, ty: &str, data: &[(&str, Value)]) -> UnifiedNode {
    UnifiedNode { id: id.to_string(), node_type: ty.to_string(), data: props(data) }
}

fn link(from: &str, to: &str, port: Option<&str>) -> UnifiedConnection {
    UnifiedConnection { id: format!("{}-{}", from, to), from_id: from.to_string(), to_id: to.to_string(), port: port.map(|p| p.to_string()) }
}

#[test]
fn click_sets_variable() {
    let mut k = LogicKernel::new();
    k.register_blueprint(UnifiedBlueprint {
        id: "bp".to_string(),
        nodes: vec![node("A", "on_click", &[]), node("B", "set_var", &[("varName", text("x")), ("value", Value::Int(5))])],
        connections: vec![link("A", "B", None)],
        variables: PropMap::new(),
    });
    let events = k.execute("bp", "on_click", &Value::Null).unwrap();
    assert_eq!(events, vec!["on_click".to_string()]);
    assert!(k.runtime_variables.get("x").unwrap().equals(&Value::Int(5)));
    assert_eq!(k.step_count, 2);
}

#[test]
fn condition_selects_port() {
    let eq = node("c", "condition", &[("left", Value::Int(5)), ("right", Value::Int(5)), ("operator", text("=="))]);
    assert_eq!(next_port(&eq), "true");
    let ne = node("c", "condition", &[("left", Value::Int(5)), ("right", Value::Int(5)), ("operator", text("!="))]);
    assert_eq!(next_port(&ne), "false");
    let odd = node("c", "condition", &[("left", Value::Int(5)), ("operator", text("<"))]);
    assert_eq!(next_port(&odd), "false");
    assert_eq!(next_port(&node("n", "alert", &[])), "default");
}

#[test]
fn condition_routes_execution() {
    let mut k = LogicKernel::new();
    k.register_blueprint(UnifiedBlueprint {
        id: "bp".to_string(),
        nodes: vec![
            node("t", "start", &[]),
            node("c", "condition", &[("left", Value::Int(1)), ("right", Value::Int(2))]),
            node("yes", "set_var", &[("varName", text("r")), ("value", text("yes"))]),
            node("no", "set_var", &[("varName", text("r")), ("value", text("no"))]),
        ],
        connections: vec![link("t", "c", None), link("c", "yes", Some("true")), link("c", "no", Some("false"))],
        variables: PropMap::new(),
    });
    k.execute("bp", "start", &Value::Null).unwrap();
    assert!(k.runtime_variables.get("r").unwrap().equals(&text("no")));
}

#[test]
fn self_loop_stops_at_ceiling() {
    let mut k = LogicKernel::with_max_steps(50);
    k.register_blueprint(UnifiedBlueprint {
        id: "loop".to_string(),
        nodes: vec![node("A", "tick", &[])],
        connections: vec![link("A", "A", None)],
        variables: PropMap::new(),
    });
    assert_eq!(k.execute("loop", "tick", &Value::Null), Err(LogicError::StepLimit));
    assert_eq!(k.step_count, 50);
    let mut d = LogicKernel::new();
    d.register_blueprint(UnifiedBlueprint {
        id: "loop".to_string(),
        nodes: vec![node("A", "tick", &[])],
        connections: vec![link("A", "A", None)],
        variables: PropMap::new(),
    });
    assert_eq!(d.execute("loop", "tick", &Value::Null), Err(LogicError::StepLimit));
    assert_eq!(d.step_count, 1000);
}

#[test]
fn unknown_blueprint_is_not_found() {
    let mut k = LogicKernel::new();
    assert_eq!(k.execute("nope", "x", &Value::Null), Err(LogicError::NotFound));
}

#[test]
fn test_analyzer_report() {
    let blueprint = UnifiedBlueprint {
        id: "test_bp".to_string(),
        nodes: vec![node("node1", "on_click", &[]), node("node2", "complex_calculation", &[])],
        connections: vec![],
        variables: PropMap::new(),
    };
    let report = BundleAnalyzer::analyze(&blueprint);
    assert!(report.contains("# Optimization Report: test_bp"));
    assert!(report.contains("- **Nodes:** 2"));
    assert!(report.contains("- `on_click` (ID: node1)"));
    assert!(report.contains("- [on_click x1]"));
}

#[test]
fn report_score_and_hints() {
    let blueprint = UnifiedBlueprint {
        id: "b".to_string(),
        nodes: vec![node("n1", "x", &[])],
        connections: vec![link("n1", "n1", None)],
        variables: PropMap::new(),
    };
    let report = BundleAnalyzer::analyze(&blueprint);
    assert!(report.contains("- **Complexity Score:** 2.5\n"));
    assert!(report.contains("*No clear entry points found.*"));
    assert!(report.contains("*No obvious optimizations detected.*"));
}

#[test]
fn accessibility_tree_labels_and_traps() {
    let mut btn_text = element("btn_text", "text", Some("close_btn"), &[]);
    btn_text.content = Some("Close".to_string());
    let p = project(vec![
        element("root", "frame", None, &["my_modal"]),
        element("my_modal", "modal", Some("root"), &["close_btn", "hero_img"]),
        element("close_btn", "button", Some("my_modal"), &["btn_text"]),
        btn_text,
        element("hero_img", "image", Some("my_modal"), &[]),
    ]);
    let tree = TreeGenerator::generate(&p).unwrap();
    let modal = &tree.children[0];
    assert_eq!(modal.role, AriaRole::Dialog);
    assert!(modal.focus_trap);
    assert_eq!(modal.id, "a11y_my_modal");
    let btn = &modal.children[0];
    assert_eq!(btn.label, Some("Close".to_string()));
    assert_eq!(modal.children[1].label, Some("Image".to_string()));
    assert_eq!(TreeGenerator::generate(&project(vec![])).unwrap_err(), "Root element not found");
}

#[test]
fn native_bundles() {
    let w = NativeCompiler::compile_target("MyApp", "windows");
    assert_eq!(w.binary_size_est, 15_000_000);
    assert_eq!(w.entry_point, "MyApp::windows_main");
    assert_eq!(NativeCompiler::compile_target("MyApp", "linux").binary_size_est, 10_000_000);
    assert_eq!(NativeCompiler::compile_target("MyApp", "beos").architecture, "wasm32");
    assert_eq!(NativeCompiler::mutate_blueprint("S", "layout"), "S_REF_FLEX_TO_GRID");
    assert_eq!(NativeCompiler::mutate_blueprint("S", "other"), "S_MUTATED");
}

#[test]
fn state_machine_transitions() {
    let mut m = StateMachinePlugin::new("Idle");
    m.add_transition("Idle", "start", "Active");
    assert!(!m.trigger("stop"));
    assert!(m.trigger("start"));
    assert_eq!(m.current_state, "Active");
    m.add_transition("Active", "stop", "Idle");
    m.add_transition("Active", "stop", "Done");
    assert!(m.trigger("stop"));
    assert_eq!(m.current_state, "Done");
}

#[test]
fn behavior_tree_sequence() {
    let mut bt = BehaviorTreePlugin::new();
    assert_eq!(bt.tick(), None);
    bt.set_root(BehaviorNode::Sequence(Sequence {
        children: vec![
            BehaviorNode::Action(Action { name: "a".to_string(), result: Status::Success }),
            BehaviorNode::Action(Action { name: "b".to_string(), result: Status::Running }),
        ],
    }));
    assert_eq!(bt.tick(), Some(Status::Failure));
    bt.set_root(BehaviorNode::Sequence(Sequence { children: vec![] }));
    assert_eq!(bt.tick(), Some(Status::Success));
}

#[test]
fn network_plugins() {
    let mut rest = RestAPIPlugin::new();
    rest.register_endpoint("user", "https://api.example");
    rest.mock_fetch_complete("user", "{}");
    assert_eq!(rest.cache.get("user").unwrap(), "{}");
    let mut ws = WebSocketPlugin::new();
    ws.send("early");
    assert!(ws.message_queue.is_empty());
    ws.connect("ws://x");
    ws.send("hi");
    ws.receive_mock("yo");
    assert_eq!(ws.message_queue, vec!["OUT: hi".to_string(), "IN: yo".to_string()]);
}

#[test]
fn experiments_count_outcomes() {
    let mut e = AutonomousEngine::new();
    e.create_experiment("exp", "el", vec![Variant { id: "v1".to_string(), conversions: 0, impressions: 0, styles_override: Value::Null }]);
    e.record_impression("exp", "v1");
    e.record_impression("exp", "v1");
    e.record_conversion("exp", "v1");
    e.record_conversion("exp", "nope");
    assert_eq!(e.experiments[0].variants[0].impressions, 2);
    assert_eq!(e.experiments[0].variants[0].conversions, 1);
}

#[test]
fn secrets_auth_and_context() {
    let mut s = SecretStore::new();
    s.set("k", "v");
    assert_eq!(s.stored("k"), Some("v".to_string()));
    assert_eq!(s.stored("x"), None);
    let c = AuthGuard::verify("t", "s").unwrap();
    assert_eq!(c.role, "admin");
    assert!(!PluginContext::new().engine_version.is_empty());
}

#[test]
fn shortcuts_resolve_case_insensitively() {
    let mut s = ShortcutsPlugin::new_with_defaults();
    assert_eq!(s.resolve("Z", true, false, false, false), Some("Undo".to_string()));
    assert_eq!(s.resolve("z", false, true, false, true), Some("Redo".to_string()));
    assert_eq!(s.resolve("Escape", false, false, false, false), Some("Escape".to_string()));
    assert_eq!(s.resolve("q", true, false, false, false), None);
    s.remap("Quit", "Q", true, false, false, false);
    assert_eq!(s.resolve("q", true, false, false, false), Some("Quit".to_string()));
}

#[test]
fn accessibility_button_label_from_text_descendants() {
    let p = project(vec![
        element("root", "button", None, &["wrap"]),
        element("wrap", "frame", Some("root"), &["t1", "t2"]),
        element("t1", "text", Some("wrap"), &[]),
        element("t2", "text", Some("wrap"), &[]),
    ]);
    let tree = TreeGenerator::generate(&p).unwrap();
    assert_eq!(tree.label, Some("Content Content".to_string()));
    assert_eq!(tree.role, AriaRole::Button);
    assert!(!tree.focus_trap);
}

#[test]
fn drag_uses_recorded_parent() {
    let s = store_with(vec![element("root", "frame", None, &["c"]), element("c", "box", Some("root"), &[])]);
    let ix = index_with(&[("root", 0, 0, 100, 100), ("c", 10, 10, 20, 20)]);
    assert_eq!(omnios_engine::engine::constrain_drag(&s, &ix, "c", 95, -5), (80, 0));
    assert_eq!(omnios_engine::engine::constrain_drag(&s, &ix, "root", 95, -5), (95, -5));
}

#[test]
fn put_element_replaces_without_linking() {
    let mut s = store_with(vec![element("root", "frame", None, &[])]);
    assert!(s.put_element(element("x", "text", Some("root"), &[])));
    assert!(s.element("x").is_some());
    assert!(children_of(&s, "root").is_empty());
    let mut empty = StateStore::new();
    assert!(!empty.put_element(element("x", "text", None, &[])));
}

#[test]
fn add_element_existing_id_is_rejected() {
    let mut s = store_with(vec![element("root", "frame", None, &["a"]), element("a", "box", Some("root"), &[])]);
    s.pull_dirty();
    assert!(!s.apply(command(
        CommandAction::AddElement { element: element("a", "text", None, &[]), parent_id: "root".to_string(), index: None },
        "a",
    )));
    assert_eq!(children_of(&s, "root"), vec!["a".to_string()]);
    assert_eq!(s.element("a").unwrap().element_type, "box");
    assert!(s.pull_dirty().is_empty());
}

#[test]
fn add_element_named_as_missing_parent_dangles() {
    let mut s = store_with(vec![element("root", "frame", None, &[])]);
    assert!(s.apply(command(
        CommandAction::AddElement { element: element("x", "box", None, &[]), parent_id: "x".to_string(), index: None },
        "x",
    )));
    let x = s.element("x").unwrap();
    assert_eq!(x.parent_id, None);
    assert!(x.children.is_none());
}

#[test]
fn fractional_lengths_keep_whole_units() {
    assert_eq!(parse_dimension(&text("12.5px")), Dimension::Points(12));
    assert_eq!(parse_dimension(&text("33.3%")), Dimension::Percent(33));
    assert_eq!(parse_dimension(&text("-0.5px")), Dimension::Points(0));
    assert_eq!(parse_dimension(&text("7.25")), Dimension::Points(7));
    assert_eq!(parse_dimension(&text("1.2.3px")), Dimension::Points(0));
    assert_eq!(parse_dimension(&Value::Raw("12.5".to_string())), Dimension::Points(12));
    assert_eq!(parse_dimension(&Value::Raw("[1]".to_string())), Dimension::Auto);
    assert_eq!(parse_length_percentage(&Value::Raw("4.9".to_string())), LengthPercentage::Points(4));
}

#[test]
fn failed_command_keeps_document() {
    let mut s = store_with(vec![element("root", "frame", None, &["a"]), element("a", "box", Some("root"), &[])]);
    s.pull_dirty();
    assert!(!s.apply(command(CommandAction::RemoveElement, "zz")));
    assert!(!s.apply(command(CommandAction::ReorderElement { parent_id: "root".to_string(), new_index: 0 }, "zz")));
    let p = s.project.as_ref().unwrap();
    assert_eq!(p.name, "p");
    assert_eq!(p.view_mode, "desktop");
    assert_eq!(children_of(&s, "root"), vec!["a".to_string()]);
    assert!(s.pull_dirty().is_empty());
}
