use katabatic_ecs::error::{KError, KResult};

fn success() -> KResult<()> {
    Ok(())
}

fn fail() -> KResult<()> {
    KError::bail("Uh oh!")
}

fn ensure_success() -> KResult<()> {
    KError::ensure(1 + 1 == 2, "")?;
    Ok(())
}

fn ensure_fail() -> KResult<()> {
    KError::ensure(1 + 1 == 0, "Uh oh!")?;
    Ok(())
}

#[test]
fn mod_test_kerror() {
    let e = KError::new();
    assert_eq!(e.desc, None);
    let e = KError::with_desc("Uh oh!");
    assert_eq!(e.desc.as_deref(), Some("Uh oh!"));
}

#[test]
fn mod_test_kbail() {
    assert!(success() == Ok(()));
    if let Err(e) = fail() {
        assert_eq!(e.desc.as_deref(), Some("Uh oh!"))
    } else {
        panic!()
    }
}

#[test]
fn mod_test_kensure() {
    assert!(ensure_success() == Ok(()));
    if let Err(e) = ensure_fail() {
        assert_eq!(e.desc.as_deref(), Some("Uh oh!"))
    } else {
        panic!()
    }
}

#[test]
fn error_test_kerror() {
    let e = KError::new();
    assert_eq!(e.desc, None);
    let e = KError::with_desc("Uh oh!");
    assert_eq!(e.desc, Some("Uh oh!".to_string()));
}

#[test]
fn error_test_kbail() {
    assert!(success() == Ok(()));
    if let Err(e) = fail() {
        assert_eq!(e.desc, Some("Uh oh!".to_string()))
    } else {
        panic!()
    }
}

#[test]
fn error_test_kensure() {
    assert!(ensure_success() == Ok(()));
    if let Err(e) = ensure_fail() {
        assert_eq!(e.desc, Some("Uh oh!".to_string()))
    } else {
        panic!()
    }
}

#[test]
fn errors_compare_by_description() {
    assert!(KError::with_desc("a") == KError::with_desc("a"));
    assert!(KError::with_desc("a") != KError::with_desc("b"));
    assert!(KError::new() == KError::new());
    assert!(KError::new() != KError::with_desc("a"));
}
