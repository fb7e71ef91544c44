use replay::event::Value;
use replay::math::{clamp, mix_scalar, quadratic_out, SCALAR_ONE};
use replay::node::{Node, NodeIdGenerator, NodeType};
use replay::event::DisplayType;
use replay::op::{OpStep, StepDirection, Op};

#[test]
fn display_strings() {
    assert_eq!(Value::I32Val(-42).display_string(), "-42");
    assert_eq!(Value::NilVal.display_string(), "nil");
    assert_eq!(Value::UndefinedVal.display_string(), "<undefined>");
    assert_eq!(Value::StringVal("a\"b".to_string()).display_string(), "\"a\\\"b\"");
    assert_eq!(Value::F64Val("7.5".to_string()).display_string(), "7.5");
    let v = Value::ArrayVal(vec![
        Value::I32Val(1),
        Value::StringVal("two".to_string()),
        Value::ArrayVal(vec![]),
        Value::ArrayVal(vec![Value::NilVal, Value::UndefinedVal]),
    ]);
    assert_eq!(v.display_string(), "[1, \"two\", [], [nil, <undefined>]]");
}

#[test]
fn simple_values() {
    assert!(Value::I32Val(0).is_simple());
    assert!(Value::UndefinedVal.is_simple());
    assert!(!Value::ArrayVal(vec![]).is_simple());
    let v = Value::ArrayVal(vec![Value::I32Val(3)]);
    assert_eq!(v.deep_clone().display_string(), "[3]");
}

#[test]
fn ids_increase() {
    let mut g = NodeIdGenerator::new();
    assert_eq!(g.next(), 0);
    assert_eq!(g.next(), 1);
    assert_eq!(g.next(), 2);
}

#[test]
fn complexity_is_sticky() {
    let mut n = Node::new(4, Value::I32Val(1), Some(0), 2, DisplayType::Default);
    assert_eq!(n.node_type, NodeType::MemCell);
    assert!(!n.is_ever_complex());
    assert!(n.should_show_value());
    n.set_value(Value::ArrayVal(vec![]));
    assert!(n.is_ever_complex());
    n.set_value(Value::UndefinedVal);
    assert!(n.is_ever_complex());
    assert!(n.should_show_name());
    assert!(!n.should_show_value());
    assert!(n.has_index_label());
    let old = n.replace_value(Value::I32Val(9));
    assert_eq!(old.display_string(), "<undefined>");
    n.reset();
    assert_eq!(n.value().display_string(), "<undefined>");
    assert!(n.is_ever_complex());
    let c = Node::new_named_container(1, Value::UndefinedVal);
    assert!(!c.should_show_name());
    assert!(!c.has_index_label());
}

#[test]
fn fixed_point_math() {
    assert_eq!(clamp(-5), 0);
    assert_eq!(clamp(SCALAR_ONE + 1), SCALAR_ONE);
    assert_eq!(clamp(250), 250);
    assert_eq!(mix_scalar(100, 300, 500), 200);
    assert_eq!(mix_scalar(300, 100, 250), 250);
    assert_eq!(quadratic_out(500), 750);
    assert_eq!(quadratic_out(2000), SCALAR_ONE);
    assert_eq!(quadratic_out(-1), 0);
}

#[test]
fn composition_and_inverse() {
    let s = OpStep::Define { id: 1 }.and_then(OpStep::NoOp);
    assert!(matches!(s, OpStep::Define { id: 1 }));
    let s = OpStep::NoOp.and_then(OpStep::Forget { id: 2 });
    assert!(matches!(s, OpStep::Forget { id: 2 }));
    let s = OpStep::Define { id: 1 }.and_then(OpStep::Define { id: 2 });
    let s = s.and_then(OpStep::Pop { id: 1 });
    match &s {
        OpStep::Atomic { steps } => {
            assert_eq!(steps.len(), 3);
            assert!(matches!(steps[2], OpStep::Pop { id: 1 }));
        }
        _ => panic!("expected a group"),
    }
    let g = OpStep::Define { id: 3 }.and_then(OpStep::Forget { id: 4 });
    let s = OpStep::Forget { id: 9 }.and_then(g);
    match &s {
        OpStep::Atomic { steps } => {
            assert_eq!(steps.len(), 3);
            assert!(matches!(steps[0], OpStep::Forget { id: 9 }));
            assert!(matches!(steps[1], OpStep::Define { id: 3 }));
        }
        _ => panic!("expected a group"),
    }
    let r = OpStep::Define { id: 1 }.and_then(OpStep::Push { id: 1, child_id: 2, value: Value::NilVal }).rev();
    match &r {
        OpStep::Atomic { steps } => {
            assert!(matches!(steps[0], OpStep::Pop { id: 1 }));
            assert!(matches!(steps[1], OpStep::Forget { id: 1 }));
        }
        _ => panic!("expected a group"),
    }
    assert!(OpStep::NoOp.is_no_op());
    let op = Op::from_steps(
        OpStep::SetValue { id: 0, value: Value::I32Val(1) },
        OpStep::SetValue { id: 0, value: Value::UndefinedVal },
        OpStep::Define { id: 0 },
    );
    match op.step_in(StepDirection::Reverse) {
        OpStep::Atomic { steps } => {
            assert!(matches!(steps[0], OpStep::SetValue { id: 0, .. }));
            assert!(matches!(steps[1], OpStep::Forget { id: 0 }));
        }
        _ => panic!("expected a group"),
    }
    let op = OpStep::Define { id: 5 }.into_op();
    assert!(matches!(op.reverse, OpStep::Forget { id: 5 }));
}
