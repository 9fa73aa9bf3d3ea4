use vstd::prelude::*;
use crate::query::{Value, ValueView};

verus! {

/// One statement for the data store, as a query builder produced it.  The
/// compiler carries it as a leaf of the plan and never looks inside.
#[derive(Debug, PartialEq, Eq)]
pub struct DbQuery {
    pub query: String,
    pub params: Vec<Value>,
}

/// The mathematical content of a [`DbQuery`].
pub struct DbQueryView {
    pub query: Seq<char>,
    pub params: Seq<ValueView>,
}

impl View for DbQuery {
    type V = DbQueryView;

    open spec fn view(&self) -> DbQueryView {
        DbQueryView { query: self.query@, params: self.params@.map_values(|p: Value| p@) }
    }
}

impl DbQuery {
    /// A statement with its parameters.
    pub fn new(query: String, params: Vec<Value>) -> (r: Self)
        ensures
            r@ == (DbQueryView {
                query: query@,
                params: params@.map_values(|p: Value| p@),
            }),
    {
        DbQuery { query, params }
    }
}

/// A value of the plan under the name by which later steps refer to it.
#[derive(Debug, PartialEq, Eq)]
pub struct Binding {
    pub name: String,
    pub expr: Expression,
}

/// The plan language.
#[derive(Debug, PartialEq, Eq)]
pub enum Expression {
    /// The steps in order; the value is that of the last.
    Sequence(Vec<Expression>),
    /// The value bound to `name`.
    Get { name: String },
    /// Evaluates the bindings in order, then `expr` with all of them in
    /// scope.
    Let { bindings: Vec<Binding>, expr: Box<Expression> },
    /// The first of the named values that is not empty.
    GetFirstNonEmpty { names: Vec<String> },
    /// The values of `field` in each of the records.
    MapField { field: String, records: Box<Expression> },
    /// A statement for the data store.
    Query(DbQuery),
}

/// The mathematical content of a [`Binding`].
pub struct BindingView {
    pub name: Seq<char>,
    pub expr: ExpressionView,
}

/// The mathematical content of an [`Expression`].
pub enum ExpressionView {
    Sequence(Seq<ExpressionView>),
    Get { name: Seq<char> },
    Let { bindings: Seq<BindingView>, expr: Box<ExpressionView> },
    GetFirstNonEmpty { names: Seq<Seq<char>> },
    MapField { field: Seq<char>, records: Box<ExpressionView> },
    Query(DbQueryView),
}

impl View for Binding {
    type V = BindingView;

    open spec fn view(&self) -> BindingView
        decreases self,
    {
        BindingView { name: self.name@, expr: self.expr@ }
    }
}

impl View for Expression {
    type V = ExpressionView;

    open spec fn view(&self) -> ExpressionView
        decreases self,
    {
        match self {
            Expression::Sequence(items) => ExpressionView::Sequence(
                Seq::new(
                    items@.len(),
                    |i: int|
                        if 0 <= i < items@.len() {
                            items@[i]@
                        } else {
                            ExpressionView::Sequence(Seq::empty())
                        },
                ),
            ),
            Expression::Get { name } => ExpressionView::Get { name: name@ },
            Expression::Let { bindings, expr } => ExpressionView::Let {
                bindings: Seq::new(
                    bindings@.len(),
                    |i: int|
                        if 0 <= i < bindings@.len() {
                            bindings@[i]@
                        } else {
                            BindingView {
                                name: Seq::empty(),
                                expr: ExpressionView::Sequence(Seq::empty()),
                            }
                        },
                ),
                expr: Box::new((**expr)@),
            },
            Expression::GetFirstNonEmpty { names } => ExpressionView::GetFirstNonEmpty {
                names: names@.map_values(|n: String| n@),
            },
            Expression::MapField { field, records } => ExpressionView::MapField {
                field: field@,
                records: Box::new((**records)@),
            },
            Expression::Query(q) => ExpressionView::Query(q@),
        }
    }
}

/// The names that `bindings` introduce.
pub open spec fn bound_names(bindings: Seq<BindingView>) -> Set<Seq<char>> {
    Set::new(
        |name: Seq<char>|
            exists|i: int| 0 <= i < bindings.len() && (#[trigger] bindings[i]).name == name,
    )
}

impl ExpressionView {
    /// Whether every name that the expression looks up is in scope where it
    /// is looked up, given that the names in `env` are in scope around the
    /// expression.  A binding of a `Let` sees the bindings before it, the
    /// body sees them all.
    pub open spec fn scoped(self, env: Set<Seq<char>>) -> bool
        decreases self,
    {
        match self {
            ExpressionView::Sequence(items) => forall|i: int|
                0 <= i < items.len() ==> (#[trigger] items[i]).scoped(env),
            ExpressionView::Get { name } => env.contains(name),
            ExpressionView::Let { bindings, expr } => {
                &&& forall|i: int|
                    0 <= i < bindings.len() ==> (#[trigger] bindings[i]).expr.scoped(
                        env.union(bound_names(bindings.take(i))),
                    )
                &&& expr.scoped(env.union(bound_names(bindings)))
            },
            ExpressionView::GetFirstNonEmpty { names } => forall|i: int|
                0 <= i < names.len() ==> env.contains(#[trigger] names[i]),
            ExpressionView::MapField { field, records } => records.scoped(env),
            ExpressionView::Query(_) => true,
        }
    }
}

/// The views of a list of expressions.
pub open spec fn exprs_view(items: Seq<Expression>) -> Seq<ExpressionView> {
    items.map_values(|e: Expression| e@)
}

/// The views of a list of bindings.
pub open spec fn bindings_view(bindings: Seq<Binding>) -> Seq<BindingView> {
    bindings.map_values(|b: Binding| b@)
}

/// The views of a list of names.
pub open spec fn names_view(names: Seq<String>) -> Seq<Seq<char>> {
    names.map_values(|n: String| n@)
}

impl Binding {
    /// The value of `expr` under `name`.
    pub fn new(name: String, expr: Expression) -> (b: Self)
        ensures
            b@ == (BindingView { name: name@, expr: expr@ }),
    {
        Binding { name, expr }
    }
}

impl Expression {
    /// The steps `items` in order.
    pub fn sequence(items: Vec<Expression>) -> (e: Self)
        ensures
            e@ == ExpressionView::Sequence(exprs_view(items@)),
    {
        let e = Expression::Sequence(items);
        assert(e@->Sequence_0 =~= exprs_view(items@));
        e
    }

    /// The value bound to `name`.
    pub fn get(name: String) -> (e: Self)
        ensures
            e@ == (ExpressionView::Get { name: name@ }),
    {
        Expression::Get { name }
    }

    /// `expr` with `bindings` in scope.
    pub fn let_in(bindings: Vec<Binding>, expr: Expression) -> (e: Self)
        ensures
            e@ == (ExpressionView::Let {
                bindings: bindings_view(bindings@),
                expr: Box::new(expr@),
            }),
    {
        let e = Expression::Let { bindings, expr: Box::new(expr) };
        assert(e@->Let_bindings =~= bindings_view(bindings@));
        e
    }

    /// The first of the values bound to `names` that is not empty.
    pub fn get_first_non_empty(names: Vec<String>) -> (e: Self)
        ensures
            e@ == (ExpressionView::GetFirstNonEmpty { names: names_view(names@) }),
    {
        Expression::GetFirstNonEmpty { names }
    }

    /// The values of `field` in each of `records`.
    pub fn map_field(field: String, records: Expression) -> (e: Self)
        ensures
            e@ == (ExpressionView::MapField { field: field@, records: Box::new(records@) }),
    {
        Expression::MapField { field, records: Box::new(records) }
    }

    /// The leaf that holds `query`.
    pub fn query(query: DbQuery) -> (e: Self)
        ensures
            e@ == ExpressionView::Query(query@),
    {
        Expression::Query(query)
    }
}

} // verus!
