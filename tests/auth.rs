use dan_consensus::auth::{AuthorizationScope, NonFungibleAddress};

#[test]
fn proofs_are_added_removed_and_inherited() {
    let badge = NonFungibleAddress { resource_address: [1u8; 32], id: vec![7] };
    let mut scope = AuthorizationScope::new(vec![badge.clone()]);
    assert_eq!(scope.virtual_proofs(), &[badge][..]);
    scope.add_proof(4);
    scope.add_proof(9);
    scope.add_proof(4);
    assert_eq!(scope.remove_proof(&4), Some(4));
    assert_eq!(scope.proofs(), &[9, 4][..]);
    assert_eq!(scope.remove_proof(&5), None);
    let mut child = AuthorizationScope::new(vec![]);
    child.add_proof(11);
    scope.update_from_child(child);
    assert_eq!(scope.proofs(), &[9, 4, 11][..]);
}
