use spine::catalog::{Error, ErrorKind};
use spine::grow::grow_vec;
use spine::rename::AmbiguousRename;

#[test]
fn grow_vec_fills_with_defaults() {
    let mut v: Vec<u32> = vec![7, 8];
    grow_vec(&mut v, 4);
    assert_eq!(v, vec![7, 8, 0, 0, 0]);
}

#[test]
fn grow_vec_leaves_a_long_vector_alone() {
    let mut v: Vec<(isize, i64)> = vec![(1, 2), (3, 4), (5, 6)];
    grow_vec(&mut v, 2);
    assert_eq!(v, vec![(1, 2), (3, 4), (5, 6)]);
    grow_vec(&mut v, 0);
    assert_eq!(v.len(), 3);
}

#[test]
fn grow_vec_grows_an_empty_vector() {
    let mut v: Vec<String> = Vec::new();
    grow_vec(&mut v, 0);
    assert_eq!(v, vec![String::new()]);
}

#[test]
fn rename_within_one_item() {
    let e = AmbiguousRename {
        depender: "v".to_string(),
        dependee: "v".to_string(),
        message: "the new name is taken".to_string(),
    };
    assert_eq!(e.to_string(), "renaming conflict: in v, the new name is taken");
}

#[test]
fn rename_across_items() {
    let e = AmbiguousRename {
        depender: "view".to_string(),
        dependee: "table".to_string(),
        message: "the new name is taken".to_string(),
    };
    assert_eq!(
        e.to_string(),
        "renaming conflict: in view, which uses table, the new name is taken"
    );
}

#[test]
fn reserved_names_come_with_detail() {
    let schema = Error::new(ErrorKind::ReservedSchemaName("mz_x".to_string()));
    assert_eq!(
        schema.detail(),
        Some("The prefixes \"mz_\" and \"pg_\" are reserved for system schemas.".to_string())
    );
    let role = Error::new(ErrorKind::ReservedRoleName("public".to_string()));
    assert_eq!(
        role.detail(),
        Some(
            "The role \"public\" and the prefixes \"mz_\" and \"pg_\" are reserved for system roles."
                .to_string()
        )
    );
    let system_role = Error::new(ErrorKind::ReservedSystemRoleName("pg_x".to_string()));
    assert_eq!(
        system_role.detail(),
        Some("The role prefixes \"mz_\" and \"pg_\" are reserved for system roles.".to_string())
    );
    let cluster = Error::new(ErrorKind::ReservedClusterName("mz_c".to_string()));
    assert_eq!(
        cluster.detail(),
        Some("The prefixes \"mz_\" and \"pg_\" are reserved for system clusters.".to_string())
    );
}

#[test]
fn other_errors_come_without_detail_or_hint() {
    let replica = Error::new(ErrorKind::ReservedReplicaName("r".to_string()));
    assert_eq!(replica.detail(), None);
    assert_eq!(replica.hint(), None);
    let oid = Error::new(ErrorKind::OidExhaustion);
    assert_eq!(oid.detail(), None);
    let rename = Error::new(ErrorKind::AmbiguousRename(AmbiguousRename {
        depender: "a".to_string(),
        dependee: "b".to_string(),
        message: "m".to_string(),
    }));
    assert_eq!(rename.detail(), None);
    let schema = Error::new(ErrorKind::ReservedSchemaName("mz_x".to_string()));
    assert_eq!(schema.hint(), None);
}
