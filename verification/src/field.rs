//! The field recorder: the typed values a frame attribute can hold, the
//! ordered key/value collection captured at a frame's creation, and their
//! rendering.

use vstd::prelude::*;

use crate::text::{
    append_bool, append_escaped, append_i128, append_i64, append_u128, append_u64, push_char,
    spec_bool_text, spec_escape, spec_int_digits, spec_nat_digits,
};
use crate::time::{append_duration, elapsed_ns, now_nanos, spec_elapsed, spec_render_duration};

verus! {

/// One recorded attribute value: a closed set of primitive kinds, with a
/// string fallback for everything else. A floating-point reading is carried
/// as the decimal text the caller rendered it to, and shown verbatim.
#[derive(Clone)]
pub enum Val {
    U64(u64),
    I64(i64),
    Float(String),
    I128(i128),
    U128(u128),
    Bool(bool),
    String(String),
}

/// The rendering of one attribute value: integers as their plain decimal
/// digits, booleans as `true` or `false`, strings quoted with quotation
/// marks and backslashes escaped, floating-point text verbatim.
pub open spec fn spec_render_val(v: Val) -> Seq<char> {
    match v {
        Val::U64(x) => spec_nat_digits(x as nat),
        Val::I64(x) => spec_int_digits(x as int),
        Val::Float(s) => s@,
        Val::I128(x) => spec_int_digits(x as int),
        Val::U128(x) => spec_nat_digits(x as nat),
        Val::Bool(b) => spec_bool_text(b),
        Val::String(s) => seq!['"'] + spec_escape(s@) + seq!['"'],
    }
}

/// Appends the rendering of one attribute value.
pub fn append_val(out: &mut String, v: &Val)
    ensures
        final(out)@ == old(out)@ + spec_render_val(*v),
{
    match v {
        Val::U64(x) => append_u64(out, *x),
        Val::I64(x) => append_i64(out, *x),
        Val::Float(s) => out.append(s.as_str()),
        Val::I128(x) => append_i128(out, *x),
        Val::U128(x) => append_u128(out, *x),
        Val::Bool(b) => append_bool(out, *b),
        Val::String(s) => {
            push_char(out, '"');
            append_escaped(out, s.as_str());
            push_char(out, '"');
            proof {
                assert(out@ =~= old(out)@ + spec_render_val(*v));
            }
        },
    }
}

/// The ordered key/value attributes of one frame, kept inline for the small
/// counts typical of a single call site.
#[verifier::external_body]
pub struct ValColl {
    items: smallvec::SmallVec<[(String, Val); 8]>,
}

/// What an attribute collection holds: its key/value pairs, in the order
/// they were recorded.
pub uninterp spec fn field_entries(v: ValColl) -> Seq<(Seq<char>, Val)>;

impl ValColl {
    /// Relies on smallvec::SmallVec::new: a new collection holds nothing.
    #[verifier::external_body]
    pub fn new() -> (r: ValColl)
        ensures
            field_entries(r) == Seq::<(Seq<char>, Val)>::empty(),
    {
        ValColl { items: smallvec::SmallVec::new() }
    }

    /// Relies on smallvec::SmallVec::push: appends the pair at the end.
    #[verifier::external_body]
    pub fn push(&mut self, key: String, val: Val)
        ensures
            field_entries(*final(self)) == field_entries(*old(self)).push((key@, val)),
    {
        self.items.push((key, val));
    }

    /// Relies on smallvec::SmallVec::len: the number of pairs held.
    #[verifier::external_body]
    pub fn len(&self) -> (n: usize)
        ensures
            n == field_entries(*self).len(),
    {
        self.items.len()
    }

    /// Relies on indexing into smallvec::SmallVec: the pair at the given
    /// position, cloned.
    #[verifier::external_body]
    pub fn get(&self, i: usize) -> (r: (String, Val))
        requires
            i < field_entries(*self).len(),
        ensures
            r.0@ == field_entries(*self)[i as int].0,
            r.1 == field_entries(*self)[i as int].1,
    {
        let p = &self.items[i];
        (p.0.clone(), p.1.clone())
    }
}

/// What one frame records: its creation timestamp and its attributes.
pub struct Data {
    pub start_at: u64,
    pub fields: ValColl,
}

/// The rendering of a sequence of attributes: each pair as `[key=value] `,
/// in recording order.
pub open spec fn spec_render_fields(fs: Seq<(Seq<char>, Val)>) -> Seq<char>
    decreases fs.len(),
{
    if fs.len() == 0 {
        Seq::empty()
    } else {
        spec_render_fields(fs.drop_last()) + seq!['['] + fs.last().0 + seq!['=']
            + spec_render_val(fs.last().1) + seq![']', ' ']
    }
}

/// Appends the rendering of all attributes of a collection.
pub fn append_fields(out: &mut String, fv: &ValColl)
    ensures
        final(out)@ == old(out)@ + spec_render_fields(field_entries(*fv)),
{
    let ghost entries = field_entries(*fv);
    let n = fv.len();
    let mut i: usize = 0;
    proof {
        assert(entries.take(0) =~= Seq::<(Seq<char>, Val)>::empty());
        assert(out@ =~= old(out)@ + spec_render_fields(entries.take(0)));
    }
    while i < n
        invariant
            n == entries.len(),
            i <= n,
            entries == field_entries(*fv),
            out@ == old(out)@ + spec_render_fields(entries.take(i as int)),
        decreases n - i,
    {
        let kv = fv.get(i);
        push_char(out, '[');
        out.append(kv.0.as_str());
        push_char(out, '=');
        append_val(out, &kv.1);
        push_char(out, ']');
        push_char(out, ' ');
        proof {
            assert(entries.take(i + 1).drop_last() =~= entries.take(i as int));
            assert(entries.take(i + 1).last() == entries[i as int]);
            assert(out@ =~= old(out)@ + spec_render_fields(entries.take(i + 1)));
        }
        i = i + 1;
    }
    proof {
        assert(entries.take(n as int) =~= entries);
    }
}

/// The rendering of a frame's recorded data at a given clock reading: the
/// attributes in recording order, then the elapsed time since creation.
pub open spec fn spec_render_data(fields: Seq<(Seq<char>, Val)>, start_at: u64, now: u64) -> Seq<
    char,
> {
    spec_render_fields(fields) + "[elapsed="@ + spec_render_duration(spec_elapsed(start_at, now))
        + "]"@
}

impl Data {
    /// Bundles a creation timestamp with recorded attributes.
    pub fn new(start_at: u64, fields: ValColl) -> (d: Data)
        ensures
            d.start_at == start_at,
            d.fields == fields,
    {
        Data { start_at, fields }
    }

    /// Stamps recorded attributes with the clock reading of this moment.
    pub fn capture(fields: ValColl) -> (d: Data)
        ensures
            d.fields == fields,
    {
        Data { start_at: now_nanos(), fields }
    }

    /// Appends the rendering of this data at the given clock reading.
    pub fn append_rendered(&self, out: &mut String, now: u64)
        ensures
            final(out)@ == old(out)@ + spec_render_data(
                field_entries(self.fields),
                self.start_at,
                now,
            ),
    {
        proof {
            reveal_strlit("[elapsed=");
            reveal_strlit("]");
        }
        append_fields(out, &self.fields);
        out.append("[elapsed=");
        append_duration(out, elapsed_ns(self.start_at, now));
        out.append("]");
        proof {
            assert(out@ =~= old(out)@ + spec_render_data(
                field_entries(self.fields),
                self.start_at,
                now,
            ));
        }
    }

    /// Renders this data at the clock reading of this moment.
    pub fn render(&self) -> (s: String)
        ensures
            exists|now: u64|
                s@ == spec_render_data(field_entries(self.fields), self.start_at, now),
    {
        let now = now_nanos();
        let mut s = String::new();
        self.append_rendered(&mut s, now);
        proof {
            assert(s@ =~= spec_render_data(field_entries(self.fields), self.start_at, now));
        }
        s
    }
}

} // verus!
