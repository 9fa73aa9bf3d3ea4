use vstd::prelude::*;

verus! {

/// What kind of value a placeholder will hold once the plan runs.
#[derive(Debug, Clone, Copy, PartialEq, Eq, Structural)]
pub enum PlaceholderType {
    Any,
    Int,
    String,
    Boolean,
}

/// A value inside an operation.
#[derive(Debug, PartialEq, Eq)]
pub enum Value {
    Null,
    Int(i64),
    Boolean(bool),
    String(String),
    /// A value that is only known when the plan runs: whatever is then bound
    /// to `name`.
    Placeholder { name: String, kind: PlaceholderType },
}

/// The mathematical content of a [`Value`].
pub enum ValueView {
    Null,
    Int(i64),
    Boolean(bool),
    String(Seq<char>),
    Placeholder { name: Seq<char>, kind: PlaceholderType },
}

impl View for Value {
    type V = ValueView;

    open spec fn view(&self) -> ValueView {
        match self {
            Value::Null => ValueView::Null,
            Value::Int(i) => ValueView::Int(*i),
            Value::Boolean(b) => ValueView::Boolean(*b),
            Value::String(s) => ValueView::String(s@),
            Value::Placeholder { name, kind } => ValueView::Placeholder {
                name: name@,
                kind: *kind,
            },
        }
    }
}

impl Clone for Value {
    fn clone(&self) -> (r: Self)
        ensures
            r@ == self@,
    {
        match self {
            Value::Null => Value::Null,
            Value::Int(i) => Value::Int(*i),
            Value::Boolean(b) => Value::Boolean(*b),
            Value::String(s) => Value::String(s.clone()),
            Value::Placeholder { name, kind } => Value::Placeholder {
                name: name.clone(),
                kind: *kind,
            },
        }
    }
}

/// One field of a record: the name the model gives it and the name under
/// which the data store keeps it.
#[derive(Debug, PartialEq, Eq)]
pub struct SelectedField {
    pub name: String,
    pub db_name: String,
}

/// The mathematical content of a [`SelectedField`].
pub struct SelectedFieldView {
    pub name: Seq<char>,
    pub db_name: Seq<char>,
}

impl View for SelectedField {
    type V = SelectedFieldView;

    open spec fn view(&self) -> SelectedFieldView {
        SelectedFieldView { name: self.name@, db_name: self.db_name@ }
    }
}

impl Clone for SelectedField {
    fn clone(&self) -> (r: Self)
        ensures
            r@ == self@,
    {
        SelectedField { name: self.name.clone(), db_name: self.db_name.clone() }
    }
}

impl SelectedField {
    /// The field `name`, kept as `db_name`.
    pub fn new(name: String, db_name: String) -> (r: Self)
        ensures
            r@ == (SelectedFieldView { name: name@, db_name: db_name@ }),
    {
        SelectedField { name, db_name }
    }

    /// The name under which the data store keeps the field.
    pub fn db_name(&self) -> (r: &String)
        ensures
            r@ == self@.db_name,
    {
        &self.db_name
    }
}

/// The fields of a source's result that a dependent operation needs.
#[derive(Debug, PartialEq, Eq)]
pub struct FieldSelection {
    pub fields: Vec<SelectedField>,
}

impl View for FieldSelection {
    type V = Seq<SelectedFieldView>;

    open spec fn view(&self) -> Seq<SelectedFieldView> {
        self.fields@.map_values(|f: SelectedField| f@)
    }
}

impl FieldSelection {
    /// The selection of `fields`, in their order.
    pub fn new(fields: Vec<SelectedField>) -> (r: Self)
        ensures
            r@ == fields@.map_values(|f: SelectedField| f@),
    {
        FieldSelection { fields }
    }

    /// How many fields are selected.
    pub fn len(&self) -> (n: usize)
        ensures
            n == self@.len(),
    {
        self.fields.len()
    }

    /// The selected field at position `i`.
    pub fn field(&self, i: usize) -> (f: &SelectedField)
        requires
            i < self@.len(),
        ensures
            f@ == self@[i as int],
    {
        &self.fields[i]
    }
}

impl Clone for FieldSelection {
    fn clone(&self) -> (r: Self)
        ensures
            r@ == self@,
    {
        let mut fields: Vec<SelectedField> = Vec::new();
        let mut i: usize = 0;
        while i < self.fields.len()
            invariant
                i <= self.fields.len(),
                fields@.len() == i,
                forall|j: int| 0 <= j < i ==> fields@[j]@ == self.fields@[j]@,
            decreases self.fields.len() - i,
        {
            fields.push(self.fields[i].clone());
            i += 1;
        }
        let r = FieldSelection { fields };
        assert(r@ =~= self@);
        r
    }
}

/// One record of field values.
#[derive(Debug, PartialEq, Eq)]
pub struct SelectionResult {
    pub pairs: Vec<(SelectedField, Value)>,
}

/// The mathematical content of a field with its value.
pub type PairView = (SelectedFieldView, ValueView);

/// The mathematical content of a list of fields with their values.
pub open spec fn pairs_view(pairs: Seq<(SelectedField, Value)>) -> Seq<PairView> {
    pairs.map_values(|p: (SelectedField, Value)| (p.0@, p.1@))
}

impl View for SelectionResult {
    type V = Seq<PairView>;

    open spec fn view(&self) -> Seq<PairView> {
        pairs_view(self.pairs@)
    }
}

impl SelectionResult {
    /// The record of `pairs`.
    pub fn new(pairs: Vec<(SelectedField, Value)>) -> (r: Self)
        ensures
            r@ == pairs_view(pairs@),
    {
        SelectionResult { pairs }
    }
}

/// Each selected field paired with a placeholder for the value bound to
/// `source`, of any type.
pub open spec fn placeholder_record(selection: Seq<SelectedFieldView>, source: Seq<char>) -> Seq<
    PairView,
> {
    selection.map_values(
        |f: SelectedFieldView|
            (f, ValueView::Placeholder { name: source, kind: PlaceholderType::Any }),
    )
}

/// The record that stands for the selected fields of what `source` will give: each field with a placeholder.
pub fn placeholder_fields(selection: &FieldSelection, source: &String) -> (r: SelectionResult)
    ensures
        r@ == placeholder_record(selection@, source@),
{
    let mut pairs: Vec<(SelectedField, Value)> = Vec::new();
    let mut i: usize = 0;
    while i < selection.len()
        invariant
            i <= selection@.len(),
            pairs@.len() == i,
            forall|j: int|
                0 <= j < i ==> (pairs@[j].0@, pairs@[j].1@) == placeholder_record(
                    selection@,
                    source@,
                )[j],
        decreases selection@.len() - i,
    {
        let field = selection.field(i).clone();
        let value = Value::Placeholder { name: source.clone(), kind: PlaceholderType::Any };
        pairs.push((field, value));
        i += 1;
    }
    assert(pairs_view(pairs@) =~= placeholder_record(selection@, source@));
    SelectionResult::new(pairs)
}

/// How a dependent operation takes up the fields of its source.
#[derive(Debug, Clone, Copy, PartialEq, Eq, Structural)]
pub enum Rewrite {
    /// Restrict the operation to the records that match the fields.
    Filter,
    /// Hand the fields to the operation as arguments.
    Inject,
}

/// A pending operation: one statement of the plan, before the query builder
/// has seen it.
#[derive(Debug, PartialEq, Eq)]
pub struct Query {
    pub name: String,
    pub filters: Vec<SelectionResult>,
    pub arguments: Vec<SelectionResult>,
}

/// The mathematical content of a [`Query`].
pub struct QueryView {
    pub name: Seq<char>,
    pub filters: Seq<Seq<PairView>>,
    pub arguments: Seq<Seq<PairView>>,
}

impl View for Query {
    type V = QueryView;

    open spec fn view(&self) -> QueryView {
        QueryView {
            name: self.name@,
            filters: self.filters@.map_values(|s: SelectionResult| s@),
            arguments: self.arguments@.map_values(|s: SelectionResult| s@),
        }
    }
}

impl QueryView {
    /// The operation after `rewrite` has taken up `record`.
    pub open spec fn rewritten(self, rewrite: Rewrite, record: Seq<PairView>) -> QueryView {
        match rewrite {
            Rewrite::Filter => QueryView { filters: self.filters.push(record), ..self },
            Rewrite::Inject => QueryView { arguments: self.arguments.push(record), ..self },
        }
    }
}

impl Query {
    /// The operation `name`, which has taken up nothing yet.
    pub fn new(name: String) -> (r: Self)
        ensures
            r@ == (QueryView { name: name@, filters: Seq::empty(), arguments: Seq::empty() }),
    {
        let r = Query { name, filters: Vec::new(), arguments: Vec::new() };
        assert(r@.filters =~= Seq::empty());
        assert(r@.arguments =~= Seq::empty());
        r
    }

    /// Applies the rewrite that a dependency carries.
    pub fn rewrite(self, rewrite: Rewrite, record: SelectionResult) -> (r: Self)
        ensures
            r@ == self@.rewritten(rewrite, record@),
    {
        let mut q = self;
        match rewrite {
            Rewrite::Filter => {
                q.filters.push(record);
                assert(q@.filters =~= self@.filters.push(record@));
            },
            Rewrite::Inject => {
                q.arguments.push(record);
                assert(q@.arguments =~= self@.arguments.push(record@));
            },
        }
        q
    }
}

} // verus!
