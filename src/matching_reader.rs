use vstd::prelude::*;

use crate::bit_set::count_set;

verus! {

/// A field's name and number within a segment.
pub struct FieldInfo {
    pub name: String,
    pub number: u32,
}

/// The fields of a segment, in order of number.
pub struct FieldInfos {
    pub by_number: Vec<FieldInfo>,
}

/// The first field of `fields` with the given number, if any.
pub open spec fn lookup(fields: Seq<FieldInfo>, number: u32) -> Option<FieldInfo>
    decreases fields.len(),
{
    if fields.len() == 0 {
        None
    } else if fields[0].number == number {
        Some(fields[0])
    } else {
        lookup(fields.drop_first(), number)
    }
}

impl FieldInfos {
    /// The field with number `number`, if there is one.
    pub fn field_info_by_number(&self, number: u32) -> (r: Option<&FieldInfo>)
        ensures
            (r is Some) == (lookup(self.by_number@, number) is Some),
            (r is Some) ==> *r->Some_0 == lookup(self.by_number@, number)->Some_0,
    {
        let mut i: usize = 0;
        assert(self.by_number@.skip(0) =~= self.by_number@);
        while i < self.by_number.len()
            invariant
                i <= self.by_number@.len(),
                lookup(self.by_number@, number) == lookup(self.by_number@.skip(i as int), number),
            decreases self.by_number.len() - i,
        {
            proof {
                assert(self.by_number@.skip(i as int).drop_first() =~= self.by_number@.skip(i + 1));
            }
            if self.by_number[i].number == number {
                return Some(&self.by_number[i]);
            }
            i = i + 1;
        }
        None
    }
}

/// What a merge reads: the documents of each segment, the fields of each
/// segment, and the fields of the merged segment.
pub struct MergeState {
    pub max_docs: Vec<i32>,
    pub fields_infos: Vec<FieldInfos>,
    pub merge_field_infos: Option<FieldInfos>,
}

/// Whether each field of a segment has, in the merged fields, a field of the
/// same number with the same name.
pub open spec fn reader_matches(fields: Seq<FieldInfo>, merged: Seq<FieldInfo>) -> bool {
    forall|j: int|
        0 <= j < fields.len() ==> match #[trigger] lookup(merged, fields[j].number) {
            Some(o) => o.name@ == fields[j].name@,
            None => false,
        }
}

/// Which segments have the same field name to number mapping as the merged
/// segment, so that their stored fields and term vectors can be copied in bulk.
pub struct MatchingReaders {
    /// Per segment, whether its mapping matches.
    pub matching_readers: Vec<bool>,
    /// How many segments match.
    pub count: usize,
}

impl MatchingReaders {
    /// Compares the field mapping of each segment of the merge with the
    /// merged one.
    pub fn new(merge_state: &MergeState) -> (r: Self)
        requires
            merge_state.fields_infos.len() >= merge_state.max_docs.len(),
            merge_state.merge_field_infos is Some,
        ensures
            r.matching_readers@.len() == merge_state.max_docs.len(),
            forall|i: int|
                0 <= i < merge_state.max_docs.len() ==> #[trigger] r.matching_readers@[i]
                    == reader_matches(
                    merge_state.fields_infos@[i].by_number@,
                    merge_state.merge_field_infos->Some_0.by_number@,
                ),
            r.count == count_set(r.matching_readers@),
    {
        let num_readers = merge_state.max_docs.len();
        let merged = merge_state.merge_field_infos.as_ref().unwrap();
        let ghost m = merged.by_number@;
        let mut matching_readers: Vec<bool> = Vec::new();
        let mut matched_count: usize = 0;
        let mut i: usize = 0;
        while i < num_readers
            invariant
                num_readers == merge_state.max_docs.len(),
                num_readers <= merge_state.fields_infos.len(),
                m == merge_state.merge_field_infos->Some_0.by_number@,
                m == merged.by_number@,
                i <= num_readers,
                matching_readers@.len() == i,
                matched_count <= i,
                matched_count == count_set(matching_readers@),
                forall|k: int|
                    0 <= k < i ==> #[trigger] matching_readers@[k] == reader_matches(
                        merge_state.fields_infos@[k].by_number@,
                        m,
                    ),
            decreases num_readers - i,
        {
            let fields = &merge_state.fields_infos[i].by_number;
            let mut all_match = true;
            let mut j: usize = 0;
            while j < fields.len()
                invariant
                    m == merged.by_number@,
                    j <= fields@.len(),
                    all_match ==> forall|k: int|
                        0 <= k < j ==> match #[trigger] lookup(m, fields@[k].number) {
                            Some(o) => o.name@ == fields@[k].name@,
                            None => false,
                        },
                    !all_match ==> !reader_matches(fields@, m),
                decreases fields.len() - j,
            {
                if all_match {
                    let fi = &fields[j];
                    let other = merged.field_info_by_number(fi.number);
                    match other {
                        Some(o) => {
                            if o.name != fi.name {
                                all_match = false;
                                proof {
                                    assert(lookup(m, fields@[j as int].number)->Some_0 == *o);
                                }
                            }
                        },
                        None => {
                            all_match = false;
                            proof {
                                assert(lookup(m, fields@[j as int].number) is None);
                            }
                        },
                    }
                }
                j = j + 1;
            }
            proof {
                assert(matching_readers@.push(all_match).drop_last() =~= matching_readers@);
            }
            matching_readers.push(all_match);
            if all_match {
                matched_count = matched_count + 1;
            }
            i = i + 1;
        }
        MatchingReaders { matching_readers, count: matched_count }
    }
}

} // verus!
