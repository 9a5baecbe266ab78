use amp::buffer_registry::{BufferMetadata, BufferRegistry, BufferType};

#[test]
fn registered_kinds_are_reported() {
    let mut reg = BufferRegistry::new();
    reg.register(Some(1), BufferMetadata { buffer_type: BufferType::SedDiff });
    reg.register(Some(2), BufferMetadata { buffer_type: BufferType::Readonly });
    assert!(reg.is_sed_diff(Some(1)));
    assert!(!reg.is_sed_diff(Some(2)));
    assert!(reg.is_readonly(Some(2)));
    assert!(!reg.is_virtual(Some(1)));
    assert!(!reg.is_editable(Some(1)));
    assert_eq!(reg.get(Some(2)), Some(&BufferMetadata { buffer_type: BufferType::Readonly }));
}

#[test]
fn unknown_buffers_are_editable() {
    let mut reg = BufferRegistry::new();
    assert!(reg.is_editable(Some(7)));
    assert!(reg.is_editable(None));
    assert_eq!(reg.get(None), None);
    reg.register(None, BufferMetadata { buffer_type: BufferType::Virtual });
    assert!(!reg.is_virtual(None));
}

#[test]
fn unregister_and_reregister() {
    let mut reg = BufferRegistry::new();
    reg.register(Some(3), BufferMetadata { buffer_type: BufferType::Virtual });
    assert!(reg.is_virtual(Some(3)));
    reg.register(Some(3), BufferMetadata { buffer_type: BufferType::Normal });
    assert!(!reg.is_virtual(Some(3)));
    assert!(reg.is_editable(Some(3)));
    reg.unregister(Some(3));
    assert_eq!(reg.get(Some(3)), None);
}

#[test]
fn default_metadata_is_normal() {
    assert_eq!(BufferMetadata::default().buffer_type, BufferType::Normal);
    assert_eq!(BufferType::default(), BufferType::Normal);
}
