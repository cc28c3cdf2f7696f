//! Reports: named fields that a binary prints as one JSON object.

use vstd::prelude::*;

verus! {

/// The value of a field.
#[derive(Debug, PartialEq, Eq)]
pub enum Field {
    Text(String),
    Number(u64),
    Signed(i64),
    Flag(bool),
}

/// The value of a field, as contracts speak of it.
pub enum FieldView {
    Text(Seq<char>),
    Number(u64),
    Signed(i64),
    Flag(bool),
}

impl View for Field {
    type V = FieldView;

    open spec fn view(&self) -> FieldView {
        match self {
            Field::Text(s) => FieldView::Text(s@),
            Field::Number(n) => FieldView::Number(*n),
            Field::Signed(n) => FieldView::Signed(*n),
            Field::Flag(b) => FieldView::Flag(*b),
        }
    }
}

/// A report under construction.
#[derive(Debug, PartialEq, Eq)]
pub struct Report {
    pub fields: Vec<(String, Field)>,
}

impl View for Report {
    type V = Seq<(Seq<char>, FieldView)>;

    open spec fn view(&self) -> Seq<(Seq<char>, FieldView)> {
        self.fields@.map_values(|f: (String, Field)| (f.0@, f.1@))
    }
}

impl Report {
    /// A report without fields.
    pub fn new() -> (r: Self)
        ensures
            r@ == Seq::<(Seq<char>, FieldView)>::empty(),
    {
        let r = Report { fields: Vec::new() };
        assert(r@ =~= Seq::<(Seq<char>, FieldView)>::empty());
        r
    }

    /// Adds a text field.
    pub fn text(&mut self, name: &str, value: &str)
        ensures
            final(self)@ == old(self)@.push((name@, FieldView::Text(value@))),
    {
        self.fields.push((name.to_owned(), Field::Text(value.to_owned())));
        assert(self@ =~= old(self)@.push((name@, FieldView::Text(value@))));
    }

    /// Adds a number field.
    pub fn number(&mut self, name: &str, value: u64)
        ensures
            final(self)@ == old(self)@.push((name@, FieldView::Number(value))),
    {
        self.fields.push((name.to_owned(), Field::Number(value)));
        assert(self@ =~= old(self)@.push((name@, FieldView::Number(value))));
    }

    /// Adds a number field that may be negative.
    pub fn signed(&mut self, name: &str, value: i64)
        ensures
            final(self)@ == old(self)@.push((name@, FieldView::Signed(value))),
    {
        self.fields.push((name.to_owned(), Field::Signed(value)));
        assert(self@ =~= old(self)@.push((name@, FieldView::Signed(value))));
    }

    /// Adds a flag field.
    pub fn flag(&mut self, name: &str, value: bool)
        ensures
            final(self)@ == old(self)@.push((name@, FieldView::Flag(value))),
    {
        self.fields.push((name.to_owned(), Field::Flag(value)));
        assert(self@ =~= old(self)@.push((name@, FieldView::Flag(value))));
    }
}

} // verus!
