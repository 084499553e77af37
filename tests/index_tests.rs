use rucene_core::delete_policy::IndexDeletionPolicy;
use rucene_core::delete_policy::KeepOnlyLastCommitDeletionPolicy;
use rucene_core::matching_reader::FieldInfo;
use rucene_core::matching_reader::FieldInfos;
use rucene_core::matching_reader::MatchingReaders;
use rucene_core::matching_reader::MergeState;

fn infos(fields: &[(&str, u32)]) -> FieldInfos {
    FieldInfos {
        by_number: fields.iter().map(|(n, k)| FieldInfo { name: n.to_string(), number: *k }).collect(),
    }
}

#[test]
fn matching_readers() {
    let state = MergeState {
        max_docs: vec![10, 20, 30, 40],
        fields_infos: vec![
            infos(&[("a", 0), ("b", 1)]),
            infos(&[("a", 0), ("c", 1)]),
            infos(&[("d", 5)]),
            infos(&[]),
        ],
        merge_field_infos: Some(infos(&[("a", 0), ("b", 1), ("e", 2)])),
    };
    let m = MatchingReaders::new(&state);
    assert_eq!(m.matching_readers, vec![true, false, false, true]);
    assert_eq!(m.count, 2);
    let merged = infos(&[("a", 0), ("b", 1)]);
    assert_eq!(merged.field_info_by_number(1).map(|f| f.name.as_str()), Some("b"));
    assert!(merged.field_info_by_number(9).is_none());
}

#[test]
fn keep_only_last_commit() {
    let p = KeepOnlyLastCommitDeletionPolicy::default();
    assert_eq!(p.on_commit(4), vec![0, 1, 2]);
    assert_eq!(p.on_init(1), Vec::<usize>::new());
    assert_eq!(p.on_init(0), Vec::<usize>::new());
}
