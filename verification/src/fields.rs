//! Splitting a wire string at its separators, and joining fields again.

use vstd::prelude::*;

verus! {

/// The byte that separates the fields of a wire string, `:`.
pub const SEPARATOR: u8 = 58;

/// Whether no byte of `text` is the separator.
pub open spec fn is_field(text: Seq<u8>) -> bool {
    forall|i: int| 0 <= i < text.len() ==> #[trigger] text[i] != SEPARATOR
}

/// Whether every byte of `text` is printable ASCII and no space.
pub open spec fn is_printable(text: Seq<u8>) -> bool {
    forall|i: int| 0 <= i < text.len() ==> 33 <= #[trigger] text[i] <= 126
}

/// Printable text followed by printable text is printable.
pub proof fn lemma_printable_concat(a: Seq<u8>, b: Seq<u8>)
    requires
        is_printable(a),
        is_printable(b),
    ensures
        is_printable(a + b),
{
    let both = a + b;
    assert forall|i: int| 0 <= i < both.len() implies 33 <= #[trigger] both[i] <= 126 by {
        if i < a.len() {
            assert(both[i] == a[i]);
        } else {
            assert(both[i] == b[i - a.len()]);
        }
    }
}

/// Whether each of `fields` is free of separators.
pub open spec fn are_fields(fields: Seq<Seq<u8>>) -> bool {
    forall|j: int| 0 <= j < fields.len() ==> is_field(#[trigger] fields[j])
}

/// The fields written one after the other with a separator between each
/// two neighbours.
pub open spec fn join(fields: Seq<Seq<u8>>) -> Seq<u8>
    decreases fields.len(),
{
    if fields.len() == 0 {
        Seq::empty()
    } else if fields.len() == 1 {
        fields[0]
    } else {
        join(fields.drop_last()) + seq![SEPARATOR] + fields.last()
    }
}

/// The fields of `text`: the stretches between its separators. A text with
/// `k` separators has `k + 1` fields, some of which may be empty.
pub open spec fn split(text: Seq<u8>) -> Seq<Seq<u8>>
    decreases text.len(),
{
    if text.len() == 0 {
        seq![Seq::empty()]
    } else {
        let head = split(text.drop_last());
        if text.last() == SEPARATOR {
            head.push(Seq::empty())
        } else {
            head.update(head.len() - 1, head.last().push(text.last()))
        }
    }
}

/// The number of fields of `text`.
pub open spec fn field_count(text: Seq<u8>) -> nat {
    split(text).len()
}

/// Splitting yields at least one field, none of them holds a separator, and
/// joining them gives the text back.
pub proof fn lemma_join_split(text: Seq<u8>)
    ensures
        split(text).len() >= 1,
        are_fields(split(text)),
        join(split(text)) == text,
    decreases text.len(),
{
    if text.len() == 0 {
        assert(join(split(text)) =~= text);
    } else {
        let front = text.drop_last();
        let c = text.last();
        let head = split(front);
        let all = split(text);
        lemma_join_split(front);
        if c == SEPARATOR {
            assert(all.drop_last() =~= head);
            assert(join(all) =~= text);
            assert forall|j: int| 0 <= j < all.len() implies is_field(#[trigger] all[j]) by {
                if j < head.len() {
                    assert(all[j] == head[j]);
                }
            }
        } else {
            let grown = head.last().push(c);
            assert forall|j: int| 0 <= j < all.len() implies is_field(#[trigger] all[j]) by {
                if j < head.len() - 1 {
                    assert(all[j] == head[j]);
                } else {
                    assert(is_field(head[head.len() - 1]));
                    assert forall|i: int| 0 <= i < grown.len() implies #[trigger] grown[i]
                        != SEPARATOR by {
                        if i < head.last().len() {
                            assert(grown[i] == head.last()[i]);
                        }
                    }
                }
            }
            if head.len() == 1 {
                assert(join(all) =~= text);
            } else {
                assert(all.drop_last() =~= head.drop_last());
                assert(join(all) =~= join(head).push(c));
                assert(join(all) =~= text);
            }
        }
    }
}

/// Text without a separator, written after any text, lengthens that text's
/// last field and leaves the others as they are.
pub proof fn lemma_split_append(text: Seq<u8>, field: Seq<u8>)
    requires
        is_field(field),
    ensures
        split(text).len() >= 1,
        split(text + field) == split(text).update(
            split(text).len() - 1,
            split(text).last() + field,
        ),
    decreases field.len(),
{
    lemma_join_split(text);
    let base = split(text);
    if field.len() == 0 {
        assert(text + field =~= text);
        assert(base.last() + field =~= base.last());
        assert(base.update(base.len() - 1, base.last()) =~= base);
    } else {
        let front = field.drop_last();
        let c = field.last();
        assert(is_field(front)) by {
            assert forall|i: int| 0 <= i < front.len() implies #[trigger] front[i]
                != SEPARATOR by {
                assert(front[i] == field[i]);
            }
        }
        lemma_split_append(text, front);
        assert((text + field).drop_last() =~= text + front);
        assert(field[field.len() - 1] != SEPARATOR);
        assert((base.last() + front).push(c) =~= base.last() + field);
        assert(split(text + field) =~= base.update(base.len() - 1, base.last() + field));
    }
}

/// Splitting joined fields gives the fields back, as long as there is at
/// least one and none holds a separator.
pub proof fn lemma_split_join(fields: Seq<Seq<u8>>)
    requires
        fields.len() >= 1,
        are_fields(fields),
    ensures
        split(join(fields)) == fields,
    decreases fields.len(),
{
    if fields.len() == 1 {
        let empty = Seq::<u8>::empty();
        lemma_split_append(empty, fields[0]);
        assert(empty + fields[0] =~= fields[0]);
        assert(split(join(fields)) =~= fields);
    } else {
        let front = fields.drop_last();
        assert(are_fields(front)) by {
            assert forall|j: int| 0 <= j < front.len() implies is_field(#[trigger] front[j]) by {
                assert(front[j] == fields[j]);
            }
        }
        lemma_split_join(front);
        let cut = join(front).push(SEPARATOR);
        assert(cut.drop_last() =~= join(front));
        assert(split(cut) =~= front.push(Seq::empty()));
        assert(is_field(fields[fields.len() - 1]));
        lemma_split_append(cut, fields.last());
        assert(cut + fields.last() =~= join(fields));
        assert(Seq::<u8>::empty() + fields.last() =~= fields.last());
        assert(split(join(fields)) =~= fields);
    }
}

/// Joining one more field onto at least one field writes a separator and
/// the field after what was joined so far.
pub proof fn lemma_join_push(fields: Seq<Seq<u8>>, field: Seq<u8>)
    requires
        fields.len() >= 1,
    ensures
        join(fields.push(field)) == join(fields) + seq![SEPARATOR] + field,
{
    assert(fields.push(field).drop_last() =~= fields);
}

/// Appends `bytes` to `out`.
pub fn push_bytes(out: &mut Vec<u8>, bytes: &[u8])
    ensures
        final(out)@ == old(out)@ + bytes@,
{
    let mut i: usize = 0;
    while i < bytes.len()
        invariant
            i <= bytes@.len(),
            out@ == old(out)@ + bytes@.take(i as int),
        decreases bytes@.len() - i,
    {
        out.push(bytes[i]);
        assert(bytes@.take(i + 1) =~= bytes@.take(i as int).push(bytes@[i as int]));
        i += 1;
    }
    assert(bytes@.take(i as int) =~= bytes@);
}

/// The views of a vector of byte vectors, in order.
pub open spec fn views(fields: Seq<Vec<u8>>) -> Seq<Seq<u8>> {
    Seq::new(fields.len(), |j: int| fields[j]@)
}

/// Cuts `text` at each separator into its fields.
pub fn split_fields(text: &[u8]) -> (fields: Vec<Vec<u8>>)
    ensures
        views(fields@) == split(text@),
        fields@.len() >= 1,
{
    let mut fields: Vec<Vec<u8>> = Vec::new();
    let mut current: Vec<u8> = Vec::new();
    let mut i: usize = 0;
    assert(text@.take(0) =~= Seq::<u8>::empty());
    assert(views(fields@).push(current@) =~= split(text@.take(0)));
    while i < text.len()
        invariant
            i <= text@.len(),
            split(text@.take(i as int)) == views(fields@).push(current@),
        decreases text@.len() - i,
    {
        let c: u8 = text[i];
        let ghost done = views(fields@);
        let ghost partial = current@;
        assert(text@.take(i + 1).drop_last() =~= text@.take(i as int));
        assert(text@.take(i + 1).last() == c);
        if c == SEPARATOR {
            fields.push(current);
            current = Vec::new();
            assert(views(fields@) =~= done.push(partial));
        } else {
            current.push(c);
            assert(views(fields@).push(current@) =~= done.push(partial).update(
                done.len() as int,
                partial.push(c),
            ));
        }
        i += 1;
    }
    assert(text@.take(i as int) =~= text@);
    let ghost done = views(fields@);
    let ghost partial = current@;
    fields.push(current);
    assert(views(fields@) =~= done.push(partial));
    fields
}

} // verus!
