use qutub_transpiler::backend::{Backend, BackendSpec};


#[test]
fn built_in_backends_have_distinct_ids() {
    let ids = [
        Backend::TrappedIon.id(),
        Backend::IbmQ.id(),
        Backend::Rigetti.id(),
        Backend::Google.id(),
    ];
    for i in 0..ids.len() {
        for j in 0..ids.len() {
            if i != j {
                assert_ne!(ids[i], ids[j], "backend ids must be unique: {:?}", ids);
            }
        }
    }
}

#[test]
fn backend_equality_is_by_identity_not_just_axis() {
    assert_eq!(Backend::IbmQ.rot_axis(), Backend::Rigetti.rot_axis());
    assert_ne!(Backend::IbmQ, Backend::Rigetti);
    assert_eq!(Backend::IbmQ, Backend::IbmQ);
}

#[test]
fn google_and_rigetti_are_distinct_despite_sharing_axis_and_gate_shape() {
    assert_eq!(Backend::Google.rot_axis(), Backend::Rigetti.rot_axis());
    assert_ne!(Backend::Google, Backend::Rigetti);
    assert_ne!(Backend::Google.id(), Backend::Rigetti.id());
}
