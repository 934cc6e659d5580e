use arc_engine::Engine;

#[test]
fn test_basic_equality() {
    let mut ac = Engine::new();
    let a = ac.add_var(vec![1, 2, 3]);
    let b = ac.add_var(vec![2, 3, 4]);

    let _ = ac.new_eq(a, b);

    // Intersection should be {2, 3}
    assert_eq!(ac.val(a), vec![2, 3]);
    assert_eq!(ac.val(b), vec![2, 3]);
}

#[test]
fn test_transitive_equality() {
    let mut ac = Engine::new();
    let a = ac.add_var(vec![1, 2]);
    let b = ac.add_var(vec![2, 3]);
    let c = ac.add_var(vec![3, 4]);

    let _ = ac.new_eq(a, b); // a:{2}, b:{2}
    let _ = ac.new_eq(b, c); // b: empty, c: empty

    assert!(ac.val(a).is_empty() || ac.val(b).is_empty() || ac.val(c).is_empty());
}

#[test]
fn test_inequality_singleton_pruning() {
    let mut ac = Engine::new();
    let a = ac.add_var(vec![1]);
    let b = ac.add_var(vec![1, 2, 3]);

    let _ = ac.new_neq(a, b);

    // Since a is {1}, b cannot be 1.
    assert_eq!(ac.val(b), vec![2, 3]);
}

#[test]
fn test_basic_retraction() {
    let mut ac = Engine::new();
    let a = ac.add_var(vec![1, 2]);
    let b = ac.add_var(vec![3, 4]);

    let c_id = ac.new_eq(a, b);
    assert!(ac.val(a).is_empty() || ac.val(b).is_empty());
    assert!(
        c_id.as_ref()
            .expect_err("Expected a conflict due to no overlap between a and b")
            .1
            .contains(&0),
        "Conflict explanation should include the failed constraint ID"
    );
    // The conflict should be explained by the failed constraint itself

    ac.retract_constraint(c_id.err().unwrap().0);
    // After retraction, domains should return to original state
    assert_eq!(ac.val(a), vec![1, 2]);
    assert_eq!(ac.val(b), vec![3, 4]);
}

#[test]
fn test_multiple_suppression_logic() {
    let mut ac = Engine::new();
    let a = ac.add_var(vec![1, 2, 3]);
    let b = ac.add_var(vec![1]);
    let c = ac.add_var(vec![1]);

    // Constraint 0: a != b  => a: {2, 3}
    let id0 = ac.new_neq(a, b);
    // Constraint 1: a != c  => a: {2, 3}
    let id1 = ac.new_neq(a, c);

    assert_eq!(ac.val(a), vec![2, 3]);

    // Retract first inequality
    ac.retract_constraint(id0.unwrap());

    // CRITICAL: Value '1' in 'a' was suppressed by id0.
    // Even after retracting id0, '1' should stay suppressed because id1 (a != c) still forbids it.
    assert_eq!(ac.val(a), vec![2, 3], "Value 1 should still be suppressed by the other inequality");

    ac.retract_constraint(id1.unwrap());
    assert_eq!(ac.val(a), vec![1, 2, 3], "All values should be restored now");
}

#[test]
fn test_diamond_chain_propagation() {
    let mut ac = Engine::new();
    let a = ac.add_var(vec![1, 2, 3]);
    let b = ac.add_var(vec![2, 3, 4]);
    let c = ac.add_var(vec![2, 3, 4]);
    let d = ac.add_var(vec![3, 4, 5]);

    // Setup chain: a == b, b == d, a == c, c == d
    let _ = ac.new_eq(a, b); // a,b: {2,3}
    let _ = ac.new_eq(b, d); // a,b,d: {3}
    let _ = ac.new_eq(a, c); // c: {3}
    let _ = ac.new_eq(c, d);

    assert_eq!(ac.val(a), vec![3]);
    assert_eq!(ac.val(d), vec![3]);
}

#[test]
fn test_inequality_chain_reaction() {
    let mut ac = Engine::new();
    // A chain where narrowing one forces another via inequalities
    let a = ac.add_var(vec![1]);
    let b = ac.add_var(vec![1, 2]);
    let c = ac.add_var(vec![2, 3]);

    let _ = ac.new_neq(a, b); // forces b to {2}
    let _ = ac.new_neq(b, c); // forces c to {3}

    assert_eq!(ac.val(b), vec![2]);
    assert_eq!(ac.val(c), vec![3]);
}

#[test]
fn test_variable_ids_and_initial_domains() {
    let mut ac = Engine::new();
    let a = ac.add_var(vec![7, 8, 9]);
    let b = ac.add_var(vec![]);
    let c = ac.add_var(vec![5, 5, 6]);
    assert_eq!(a, 0);
    assert_eq!(b, 1);
    assert_eq!(c, 2);
    assert_eq!(ac.val(a), vec![7, 8, 9]);
    assert_eq!(ac.val(b), Vec::<i32>::new());
    // Duplicate values each keep their own slot.
    assert_eq!(ac.val(c), vec![5, 5, 6]);
}

#[test]
fn test_retract_unknown_is_noop() {
    let mut ac = Engine::new();
    let a = ac.add_var(vec![1, 2]);
    let b = ac.add_var(vec![2, 3]);
    let _ = ac.new_eq(a, b);
    assert_eq!(ac.val(a), vec![2]);
    // An identifier that was never handed out: nothing changes.
    ac.retract_constraint(17);
    assert_eq!(ac.val(a), vec![2]);
    assert_eq!(ac.val(b), vec![2]);
}

#[test]
fn test_retract_all_restores_original_domains() {
    let mut ac = Engine::new();
    let a = ac.add_var(vec![1, 2, 3]);
    let b = ac.add_var(vec![2, 3, 4]);
    let c = ac.add_var(vec![3, 4, 5]);
    let d = ac.add_var(vec![9]);
    let i0 = ac.new_eq(a, b).unwrap();
    let i1 = ac.new_eq(b, c).unwrap();
    let i2 = ac.new_neq(c, d).unwrap();
    assert_eq!(ac.val(a), vec![3]);
    // Retract in an order different from insertion.
    ac.retract_constraint(i1);
    ac.retract_constraint(i0);
    ac.retract_constraint(i2);
    assert_eq!(ac.val(a), vec![1, 2, 3]);
    assert_eq!(ac.val(b), vec![2, 3, 4]);
    assert_eq!(ac.val(c), vec![3, 4, 5]);
    assert_eq!(ac.val(d), vec![9]);
}

#[test]
fn test_order_independence_of_final_domains() {
    let mut e1 = Engine::new();
    let a1 = e1.add_var(vec![1, 2, 3]);
    let b1 = e1.add_var(vec![2, 3, 4]);
    let c1 = e1.add_var(vec![3, 4, 5]);
    assert!(e1.new_eq(a1, b1).is_ok());
    assert!(e1.new_eq(b1, c1).is_ok());

    let mut e2 = Engine::new();
    let a2 = e2.add_var(vec![1, 2, 3]);
    let b2 = e2.add_var(vec![2, 3, 4]);
    let c2 = e2.add_var(vec![3, 4, 5]);
    assert!(e2.new_eq(b2, c2).is_ok());
    assert!(e2.new_eq(a2, b2).is_ok());

    assert_eq!(e1.val(a1), e2.val(a2));
    assert_eq!(e1.val(b1), e2.val(b2));
    assert_eq!(e1.val(c1), e2.val(c2));
}

#[test]
fn test_duplicate_constraint_is_idempotent() {
    let mut ac = Engine::new();
    let a = ac.add_var(vec![1, 2, 3]);
    let b = ac.add_var(vec![2, 3, 4]);
    let first = ac.new_eq(a, b).unwrap();
    let after_once_a = ac.val(a);
    let after_once_b = ac.val(b);
    // The same constraint again: domains must not move.
    let second = ac.new_eq(a, b).unwrap();
    assert_eq!(ac.val(a), after_once_a);
    assert_eq!(ac.val(b), after_once_b);
    // Retracting either duplicate leaves the other one enforcing.
    ac.retract_constraint(second);
    assert_eq!(ac.val(a), after_once_a);
    assert_eq!(ac.val(b), after_once_b);
    ac.retract_constraint(first);
    assert_eq!(ac.val(a), vec![1, 2, 3]);
    assert_eq!(ac.val(b), vec![2, 3, 4]);
}

#[test]
fn test_duplicate_retract_first_then_repropagate() {
    let mut ac = Engine::new();
    let a = ac.add_var(vec![1, 2, 3]);
    let b = ac.add_var(vec![2, 3, 4]);
    let first = ac.new_eq(a, b).unwrap();
    let _second = ac.new_eq(a, b).unwrap();
    // Retract the duplicate that owns the suppressions: the other one
    // re-kills the same values during re-propagation.
    ac.retract_constraint(first);
    assert_eq!(ac.val(a), vec![2, 3]);
    assert_eq!(ac.val(b), vec![2, 3]);
}

#[test]
fn test_wipeout_explanation_lists_suppressors() {
    let mut ac = Engine::new();
    let a = ac.add_var(vec![1]);
    let b = ac.add_var(vec![1, 2]);
    let c = ac.add_var(vec![2]);
    let i0 = ac.new_neq(a, b).unwrap(); // b: {2}
    let r = ac.new_neq(b, c); // b cannot differ from c: wipeout
    let (failed, explanation) = r.expect_err("b should be wiped out");
    assert_eq!(failed, 1);
    // Every explanation entry is one of the registered constraints and the
    // set is non-empty; the suppressors of b's slots are i0 and the new one.
    assert!(!explanation.is_empty());
    for x in &explanation {
        assert!(*x == i0 || *x == failed);
    }
}

#[test]
fn test_equality_on_same_variable_changes_nothing() {
    let mut ac = Engine::new();
    let a = ac.add_var(vec![4, 5]);
    let id = ac.new_eq(a, a);
    assert!(id.is_ok());
    assert_eq!(ac.val(a), vec![4, 5]);
}

#[test]
fn test_failed_state_prunings_visible_until_retract() {
    let mut ac = Engine::new();
    let a = ac.add_var(vec![1, 2]);
    let b = ac.add_var(vec![2, 3]);
    let c = ac.add_var(vec![3, 4]);
    assert!(ac.new_eq(a, b).is_ok()); // a,b: {2}
    let r = ac.new_eq(b, c);
    let (failed, explanation) = r.expect_err("no consistent assignment for the chain");
    // The pruning that exposed the conflict stays visible.
    assert!(ac.val(a).is_empty() || ac.val(b).is_empty() || ac.val(c).is_empty());
    // Retracting the offender restores a consistent state.
    let _ = explanation;
    ac.retract_constraint(failed);
    assert_eq!(ac.val(a), vec![2]);
    assert_eq!(ac.val(b), vec![2]);
    assert_eq!(ac.val(c), vec![3, 4]);
}

#[test]
fn test_inequality_two_sided_pruning() {
    let mut ac = Engine::new();
    let a = ac.add_var(vec![1, 2]);
    let b = ac.add_var(vec![1]);
    let _ = ac.new_neq(a, b); // a loses 1; b keeps 1 because a still has 2
    assert_eq!(ac.val(a), vec![2]);
    assert_eq!(ac.val(b), vec![1]);
}

#[test]
fn test_inequality_on_same_variable_wipes_out() {
    let mut ac = Engine::new();
    let a = ac.add_var(vec![1, 2]);
    let r = ac.new_neq(a, a);
    let (failed, explanation) = r.expect_err("no value differs from itself");
    assert_eq!(ac.val(a), Vec::<i32>::new());
    assert_eq!(explanation, vec![failed]);
    // Retracting the degenerate constraint restores the domain.
    ac.retract_constraint(failed);
    assert_eq!(ac.val(a), vec![1, 2]);
}
