use crount::trail::{BoolId, OptionBoolId, Trail, UsizeId};

#[test]
fn trail_reads_back_what_was_written() {
    let mut t = Trail::new();
    let u = t.manage_usize(3);
    let b = t.manage_bool(true);
    let o = t.manage_option_bool(None);
    assert_eq!(u, UsizeId(0));
    assert_eq!(b, BoolId(1));
    assert_eq!(o, OptionBoolId(2));
    assert_eq!(t.get_usize(u), 3);
    assert!(t.get_bool(b));
    assert_eq!(t.get_option_bool(o), None);
    assert_eq!(t.set_usize(u, 7), 7);
    assert!(!t.set_bool(b, false));
    assert!(t.set_option_bool(o, true));
    assert_eq!(t.get_usize(u), 7);
    assert!(!t.get_bool(b));
    assert_eq!(t.get_option_bool(o), Some(true));
}

#[test]
fn trail_restore_gives_back_the_saved_values() {
    let mut t = Trail::new();
    let u = t.manage_usize(1);
    let b = t.manage_bool(true);
    let o = t.manage_option_bool(None);
    t.save_state();
    t.set_usize(u, 10);
    t.set_bool(b, false);
    t.set_option_bool(o, false);
    t.save_state();
    t.set_usize(u, 20);
    t.set_option_bool(o, true);
    assert_eq!(t.get_usize(u), 20);
    t.restore_state();
    assert_eq!(t.get_usize(u), 10);
    assert!(!t.get_bool(b));
    assert_eq!(t.get_option_bool(o), Some(false));
    t.restore_state();
    assert_eq!(t.get_usize(u), 1);
    assert!(t.get_bool(b));
    assert_eq!(t.get_option_bool(o), None);
}

#[test]
fn trail_values_managed_after_a_save_keep_their_kind() {
    let mut t = Trail::new();
    let u = t.manage_usize(4);
    t.save_state();
    let b = t.manage_bool(false);
    t.set_usize(u, 5);
    t.restore_state();
    assert_eq!(t.get_usize(u), 4);
    // what `b` holds after the restore is not promised, but it is still a bool
    let _ = t.get_bool(b);
    assert_eq!(t.manage_usize(0), UsizeId(2));
}
