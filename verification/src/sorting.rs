//! Ordering lecture records from the latest to the earliest.
//!
//! Records are ordered by one of their text fields, descending. Records that
//! agree on that field stay in the order in which they were given, so the
//! outcome is a function of the input: there is exactly one such arrangement.

use vstd::prelude::*;

use crate::lecture::LectureInfo;
use crate::lecture::LectureRecord;
use crate::order::lemma_text_le_antisymmetric;
use crate::order::lemma_text_le_reflexive;
use crate::order::lemma_text_le_total;
use crate::order::lemma_text_le_transitive;
use crate::order::text_at_most;
use crate::order::text_le;

verus! {

/// The field by which records are ordered.
#[derive(Clone, Copy, Debug, PartialEq, Eq, Structural)]
pub enum LectureField {
    /// The recording date.
    Date,
    /// The file name without extension.
    Filename,
}

/// The text of a record's field.
pub open spec fn field_of(lecture: LectureRecord, field: LectureField) -> Seq<char> {
    match field {
        LectureField::Date => lecture.date,
        LectureField::Filename => lecture.filename,
    }
}

/// The records whose field is `key`.
pub open spec fn has_key(field: LectureField, key: Seq<char>) -> spec_fn(LectureRecord) -> bool {
    |lecture: LectureRecord| field_of(lecture, field) == key
}

/// No record is followed by one with a greater field.
pub open spec fn is_descending(lectures: Seq<LectureRecord>, field: LectureField) -> bool {
    forall|i: int, j: int|
        0 <= i < j < lectures.len() ==> text_le(
            field_of(#[trigger] lectures[j], field),
            field_of(#[trigger] lectures[i], field),
        )
}

/// For each value of the field, both sequences hold the same records with
/// that value, in the same order.
pub open spec fn keeps_ties_in_order(
    sorted: Seq<LectureRecord>,
    given: Seq<LectureRecord>,
    field: LectureField,
) -> bool {
    forall|key: Seq<char>|
        sorted.filter(#[trigger] has_key(field, key)) == given.filter(has_key(field, key))
}

/// `sorted` is `given` put in descending order of `field`, with records that
/// agree on the field left in the order they had.
pub open spec fn is_sorted_descending(
    sorted: Seq<LectureRecord>,
    given: Seq<LectureRecord>,
    field: LectureField,
) -> bool {
    &&& sorted.len() == given.len()
    &&& is_descending(sorted, field)
    &&& keeps_ties_in_order(sorted, given, field)
}

/// The descending arrangement of `given`.
pub open spec fn sorted_descending(given: Seq<LectureRecord>, field: LectureField) -> Seq<
    LectureRecord,
> {
    choose|sorted: Seq<LectureRecord>| is_sorted_descending(sorted, given, field)
}

/// Where a record goes into a descending sequence: behind every record with
/// a greater field, and before every other.
spec fn is_insertion_point(
    sorted: Seq<LectureRecord>,
    lecture: LectureRecord,
    field: LectureField,
    at: int,
) -> bool {
    &&& 0 <= at <= sorted.len()
    &&& forall|i: int|
        0 <= i < at ==> !text_le(field_of(#[trigger] sorted[i], field), field_of(lecture, field))
    &&& at < sorted.len() ==> text_le(field_of(sorted[at], field), field_of(lecture, field))
}

proof fn lemma_filter_nothing(lectures: Seq<LectureRecord>, pred: spec_fn(LectureRecord) -> bool)
    requires
        forall|i: int| 0 <= i < lectures.len() ==> !pred(#[trigger] lectures[i]),
    ensures
        lectures.filter(pred) == Seq::<LectureRecord>::empty(),
    decreases lectures.len(),
{
    if lectures.len() == 0 {
        lectures.lemma_filter_len(pred);
        assert(lectures.filter(pred) =~= Seq::<LectureRecord>::empty());
    } else {
        let init = lectures.drop_last();
        assert forall|i: int| 0 <= i < init.len() implies !pred(#[trigger] init[i]) by {
            assert(init[i] == lectures[i]);
        }
        lemma_filter_nothing(init, pred);
        init.lemma_filter_push(lectures.last(), pred);
        assert(lectures =~= init.push(lectures.last()));
    }
}

proof fn lemma_filter_member(
    lectures: Seq<LectureRecord>,
    pred: spec_fn(LectureRecord) -> bool,
) -> (at: int)
    requires
        lectures.filter(pred).len() > 0,
    ensures
        0 <= at < lectures.len(),
        pred(lectures[at]),
{
    if forall|i: int| 0 <= i < lectures.len() ==> !pred(#[trigger] lectures[i]) {
        lemma_filter_nothing(lectures, pred);
    }
    choose|i: int| 0 <= i < lectures.len() && pred(#[trigger] lectures[i])
}

proof fn lemma_insert_sorted(
    sorted: Seq<LectureRecord>,
    given: Seq<LectureRecord>,
    lecture: LectureRecord,
    field: LectureField,
    at: int,
)
    requires
        is_sorted_descending(sorted, given, field),
        is_insertion_point(sorted, lecture, field, at),
    ensures
        is_sorted_descending(sorted.insert(at, lecture), seq![lecture] + given, field),
{
    let grown = sorted.insert(at, lecture);
    let key = field_of(lecture, field);
    let head = sorted.take(at);
    let tail = sorted.skip(at);
    assert(sorted =~= head + tail);
    assert(grown =~= head.push(lecture) + tail);
    assert forall|i: int, j: int| 0 <= i < j < grown.len() implies text_le(
        field_of(#[trigger] grown[j], field),
        field_of(#[trigger] grown[i], field),
    ) by {
        if j < at {
            assert(grown[i] == sorted[i] && grown[j] == sorted[j]);
        } else if j == at {
            assert(grown[i] == sorted[i]);
            lemma_text_le_total(field_of(sorted[i], field), key);
        } else if i < at {
            assert(grown[i] == sorted[i] && grown[j] == sorted[j - 1]);
        } else if i == at {
            assert(grown[j] == sorted[j - 1]);
            if j - 1 > at {
                assert(text_le(field_of(sorted[j - 1], field), field_of(sorted[at], field)));
                lemma_text_le_transitive(
                    field_of(sorted[j - 1], field),
                    field_of(sorted[at], field),
                    key,
                );
            }
        } else {
            assert(grown[i] == sorted[i - 1] && grown[j] == sorted[j - 1]);
        }
    }
    assert forall|other: Seq<char>|
        grown.filter(#[trigger] has_key(field, other)) == (seq![lecture] + given).filter(
            has_key(field, other),
        ) by {
        let pred = has_key(field, other);
        Seq::filter_distributes_over_add(head, tail, pred);
        Seq::filter_distributes_over_add(head.push(lecture), tail, pred);
        head.lemma_filter_push(lecture, pred);
        given.lemma_filter_prepend(lecture, pred);
        assert(sorted.filter(pred) == given.filter(pred));
        if pred(lecture) {
            assert forall|i: int| 0 <= i < head.len() implies !pred(#[trigger] head[i]) by {
                assert(head[i] == sorted[i]);
                lemma_text_le_reflexive(key);
            }
            lemma_filter_nothing(head, pred);
            assert(head.filter(pred).push(lecture) + tail.filter(pred) =~= seq![lecture] + (
            head.filter(pred) + tail.filter(pred)));
        } else {
            assert(Seq::<LectureRecord>::empty() + given.filter(pred) =~= given.filter(pred));
        }
    }
}

proof fn lemma_insertion_point_exists(
    sorted: Seq<LectureRecord>,
    lecture: LectureRecord,
    field: LectureField,
    from: int,
) -> (at: int)
    requires
        0 <= from <= sorted.len(),
        forall|i: int|
            0 <= i < from ==> !text_le(
                field_of(#[trigger] sorted[i], field),
                field_of(lecture, field),
            ),
    ensures
        is_insertion_point(sorted, lecture, field, at),
    decreases sorted.len() - from,
{
    if from < sorted.len() && !text_le(field_of(sorted[from], field), field_of(lecture, field)) {
        lemma_insertion_point_exists(sorted, lecture, field, from + 1)
    } else {
        from
    }
}

/// Every sequence of records has a descending arrangement:
/// `sorted_descending` is one.
pub proof fn lemma_sorted_descending_exists(given: Seq<LectureRecord>, field: LectureField)
    ensures
        is_sorted_descending(sorted_descending(given, field), given, field),
    decreases given.len(),
{
    if given.len() == 0 {
        assert(given.filter(has_key(field, Seq::empty())).len() <= 0) by {
            given.lemma_filter_len(has_key(field, Seq::empty()));
        }
        assert(is_sorted_descending(given, given, field));
    } else {
        let first = given[0];
        let later = given.skip(1);
        lemma_sorted_descending_exists(later, field);
        let arranged = sorted_descending(later, field);
        let at = lemma_insertion_point_exists(arranged, first, field, 0);
        lemma_insert_sorted(arranged, later, first, field, at);
        assert(seq![first] + later =~= given);
        assert(is_sorted_descending(arranged.insert(at, first), given, field));
    }
}

/// A sequence of records has one descending arrangement only: two sequences
/// that are both in descending order and hold, for every value of the field,
/// the same records in the same order are the same sequence.
pub proof fn lemma_descending_is_unique(
    one: Seq<LectureRecord>,
    other: Seq<LectureRecord>,
    field: LectureField,
)
    requires
        is_descending(one, field),
        is_descending(other, field),
        keeps_ties_in_order(one, other, field),
    ensures
        one == other,
    decreases one.len(),
{
    if one.len() == 0 || other.len() == 0 {
        if one.len() > 0 {
            let pred = has_key(field, field_of(one[0], field));
            one.lemma_filter_contains(pred, 0);
            other.lemma_filter_len(pred);
            assert(one.filter(pred) == other.filter(pred));
        }
        if other.len() > 0 {
            let pred = has_key(field, field_of(other[0], field));
            other.lemma_filter_contains(pred, 0);
            one.lemma_filter_len(pred);
            assert(one.filter(pred) == other.filter(pred));
        }
        assert(one =~= other);
    } else {
        let x = one.last();
        let y = other.last();
        let kx = field_of(x, field);
        let ky = field_of(y, field);
        // the last record of each sequence has the least field of both
        assert(text_le(kx, ky)) by {
            let pred = has_key(field, ky);
            other.lemma_filter_contains(pred, other.len() - 1);
            assert(one.filter(pred) == other.filter(pred));
            let at = lemma_filter_member(one, pred);
            if at < one.len() - 1 {
                assert(text_le(field_of(one[one.len() - 1], field), field_of(one[at], field)));
            } else {
                lemma_text_le_reflexive(kx);
            }
        }
        assert(text_le(ky, kx)) by {
            let pred = has_key(field, kx);
            one.lemma_filter_contains(pred, one.len() - 1);
            assert(one.filter(pred) == other.filter(pred));
            let at = lemma_filter_member(other, pred);
            if at < other.len() - 1 {
                assert(text_le(
                    field_of(other[other.len() - 1], field),
                    field_of(other[at], field),
                ));
            } else {
                lemma_text_le_reflexive(ky);
            }
        }
        lemma_text_le_antisymmetric(kx, ky);
        let one_init = one.drop_last();
        let other_init = other.drop_last();
        assert(one =~= one_init.push(x));
        assert(other =~= other_init.push(y));
        assert forall|key: Seq<char>|
            one_init.filter(#[trigger] has_key(field, key)) == other_init.filter(
                has_key(field, key),
            ) by {
            let pred = has_key(field, key);
            one_init.lemma_filter_push(x, pred);
            other_init.lemma_filter_push(y, pred);
            assert(one.filter(pred) == other.filter(pred));
            if pred(x) {
                assert(one_init.filter(pred).push(x).drop_last() =~= one_init.filter(pred));
                assert(other_init.filter(pred).push(y).drop_last() =~= other_init.filter(pred));
            }
        }
        assert(x == y) by {
            let pred = has_key(field, kx);
            one_init.lemma_filter_push(x, pred);
            other_init.lemma_filter_push(y, pred);
            assert(one.filter(pred) == other.filter(pred));
            assert(one_init.filter(pred).push(x).last() == x);
            assert(other_init.filter(pred).push(y).last() == y);
        }
        assert(is_descending(one_init, field)) by {
            assert forall|i: int, j: int| 0 <= i < j < one_init.len() implies text_le(
                field_of(#[trigger] one_init[j], field),
                field_of(#[trigger] one_init[i], field),
            ) by {
                assert(one_init[i] == one[i] && one_init[j] == one[j]);
            }
        }
        assert(is_descending(other_init, field)) by {
            assert forall|i: int, j: int| 0 <= i < j < other_init.len() implies text_le(
                field_of(#[trigger] other_init[j], field),
                field_of(#[trigger] other_init[i], field),
            ) by {
                assert(other_init[i] == other[i] && other_init[j] == other[j]);
            }
        }
        lemma_descending_is_unique(one_init, other_init, field);
    }
}

/// Whatever is a descending arrangement of `given` is the one that
/// `sorted_descending` names.
pub proof fn lemma_sorted_descending_is(
    sorted: Seq<LectureRecord>,
    given: Seq<LectureRecord>,
    field: LectureField,
)
    requires
        is_sorted_descending(sorted, given, field),
    ensures
        sorted == sorted_descending(given, field),
{
    let chosen = sorted_descending(given, field);
    assert(is_sorted_descending(chosen, given, field));
    assert forall|key: Seq<char>|
        sorted.filter(#[trigger] has_key(field, key)) == chosen.filter(has_key(field, key)) by {
        assert(sorted.filter(has_key(field, key)) == given.filter(has_key(field, key)));
        assert(chosen.filter(has_key(field, key)) == given.filter(has_key(field, key)));
    }
    lemma_descending_is_unique(sorted, chosen, field);
}

/// A descending arrangement holds the records that were given, and no
/// others.
pub proof fn lemma_sorted_holds_given(
    sorted: Seq<LectureRecord>,
    given: Seq<LectureRecord>,
    field: LectureField,
)
    requires
        is_sorted_descending(sorted, given, field),
    ensures
        forall|lecture: LectureRecord| sorted.contains(lecture) <==> given.contains(lecture),
{
    assert forall|lecture: LectureRecord| sorted.contains(lecture) implies given.contains(
        lecture,
    ) by {
        let pred = has_key(field, field_of(lecture, field));
        let i = choose|i: int| 0 <= i < sorted.len() && sorted[i] == lecture;
        sorted.lemma_filter_contains(pred, i);
        assert(sorted.filter(pred) == given.filter(pred));
        given.lemma_filter_contains_rev(pred, lecture);
    }
    assert forall|lecture: LectureRecord| given.contains(lecture) implies sorted.contains(
        lecture,
    ) by {
        let pred = has_key(field, field_of(lecture, field));
        let i = choose|i: int| 0 <= i < given.len() && given[i] == lecture;
        given.lemma_filter_contains(pred, i);
        assert(sorted.filter(pred) == given.filter(pred));
        sorted.lemma_filter_contains_rev(pred, lecture);
    }
}

/// The text of one field of a record.
pub fn field_text(lecture: &LectureInfo, field: LectureField) -> (text: &str)
    ensures
        text@ == field_of(lecture@, field),
{
    match field {
        LectureField::Date => lecture.date.as_str(),
        LectureField::Filename => lecture.filename.as_str(),
    }
}

/// Puts records in descending order of `field`. Records that agree on the
/// field keep the order in which they came.
pub fn sort_descending(lectures: Vec<LectureInfo>, field: LectureField) -> (sorted: Vec<
    LectureInfo,
>)
    ensures
        sorted.deep_view() == sorted_descending(lectures.deep_view(), field),
        is_sorted_descending(sorted.deep_view(), lectures.deep_view(), field),
{
    let ghost given = lectures.deep_view();
    let mut rest = lectures;
    let mut sorted: Vec<LectureInfo> = Vec::new();
    proof {
        assert(given.skip(given.len() as int) =~= Seq::<LectureRecord>::empty());
        assert(sorted.deep_view() =~= Seq::<LectureRecord>::empty());
        assert(rest.deep_view() =~= given.take(rest.len() as int));
        assert forall|key: Seq<char>|
            sorted.deep_view().filter(#[trigger] has_key(field, key)) == given.skip(
                given.len() as int,
            ).filter(has_key(field, key)) by {}
    }
    while rest.len() > 0
        invariant
            rest.len() <= given.len(),
            rest.deep_view() == given.take(rest.len() as int),
            is_sorted_descending(sorted.deep_view(), given.skip(rest.len() as int), field),
        decreases rest.len(),
    {
        let ghost arranged = sorted.deep_view();
        let ghost done = given.skip(rest.len() as int);
        let ghost waiting = rest.deep_view();
        match rest.pop() {
            None => {
                assert(false);
            },
            Some(next) => {
                let ghost record = next@;
                assert(record == waiting[waiting.len() - 1]);
                assert(record == given[rest.len() as int]);
                let mut at: usize = 0;
                let mut placed = false;
                while !placed && at < sorted.len()
                    invariant
                        at <= sorted.len(),
                        sorted.deep_view() == arranged,
                        next@ == record,
                        forall|i: int|
                            0 <= i < at ==> !text_le(
                                field_of(#[trigger] arranged[i], field),
                                field_of(record, field),
                            ),
                        placed ==> at < sorted.len() && text_le(
                            field_of(arranged[at as int], field),
                            field_of(record, field),
                        ),
                    decreases (sorted.len() - at) + (if placed { 0int } else { 1int }),
                {
                    if text_at_most(field_text(&sorted[at], field), field_text(&next, field)) {
                        placed = true;
                    } else {
                        at += 1;
                    }
                }
                sorted.insert(at, next);
                proof {
                    lemma_insert_sorted(arranged, done, record, field, at as int);
                    assert(sorted.deep_view() =~= arranged.insert(at as int, record));
                    assert(seq![record] + done =~= given.skip(rest.len() as int));
                    assert(rest.deep_view() =~= given.take(rest.len() as int));
                }
            },
        }
    }
    proof {
        assert(given.skip(0) =~= given);
        lemma_sorted_descending_is(sorted.deep_view(), given, field);
    }
    sorted
}

} // verus!
