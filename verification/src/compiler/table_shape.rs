//! Shape analysis of table constructors `{ ... }`.
use vstd::prelude::*;

use crate::parser::{Expr, TableEntry};
use crate::text::{chars_eq, chars_of};

verus! {

#[derive(Debug, PartialEq, Eq)]
pub enum TableShapeKind {
    Empty,
    PureArray(usize),
    Record(Vec<String>),
    Mixed { array_len: usize, fields: Vec<String> },
    Dynamic,
}

#[derive(Debug, PartialEq, Eq)]
pub struct TableShape {
    pub kind: TableShapeKind,
    pub array_capacity: usize,
    pub hash_capacity: usize,
    pub has_duplicate_keys: bool,
}

/// The keys of the keyed entries, in order.
pub open spec fn keys_of(es: Seq<TableEntry>) -> Seq<Seq<char>>
    decreases es.len(),
{
    if es.len() == 0 {
        Seq::empty()
    } else {
        match es.last().key {
            Some(k) => keys_of(es.drop_last()).push(k@),
            None => keys_of(es.drop_last()),
        }
    }
}

/// The number of positional (unkeyed) entries.
pub open spec fn array_count(es: Seq<TableEntry>) -> nat
    decreases es.len(),
{
    if es.len() == 0 {
        0
    } else {
        array_count(es.drop_last()) + if es.last().key is None {
            1nat
        } else {
            0nat
        }
    }
}

proof fn lemma_counts(es: Seq<TableEntry>)
    ensures
        array_count(es) + keys_of(es).len() == es.len(),
    decreases es.len(),
{
    if es.len() > 0 {
        lemma_counts(es.drop_last());
    }
}

/// The positional and the keyed entries make up all entries; the hash part
/// holds at most one slot per keyed entry, and fewer exactly when a key
/// repeats.
pub proof fn lemma_shape_capacities(es: Seq<TableEntry>)
    ensures
        array_count(es) + keys_of(es).len() == es.len(),
        keys_of(es).to_set().len() <= keys_of(es).len(),
        !keys_of(es).no_duplicates() <==> keys_of(es).to_set().len() < keys_of(es).len(),
{
    lemma_counts(es);
    keys_of(es).lemma_cardinality_of_set();
    if keys_of(es).no_duplicates() {
        keys_of(es).unique_seq_to_set();
    } else if keys_of(es).to_set().len() == keys_of(es).len() {
        keys_of(es).lemma_no_dup_set_cardinality();
    }
}

/// The views of a list of strings.
pub open spec fn string_views(v: Seq<String>) -> Seq<Seq<char>> {
    Seq::new(v.len(), |i: int| v[i]@)
}

fn contains_name(seen: &Vec<Vec<char>>, name: &[char]) -> (r: bool)
    ensures
        r == Seq::new(seen@.len(), |i: int| seen@[i]@).contains(name@),
{
    let ghost sv = Seq::new(seen@.len(), |i: int| seen@[i]@);
    let mut i: usize = 0;
    while i < seen.len()
        invariant
            i <= seen@.len(),
            sv == Seq::new(seen@.len(), |k: int| seen@[k]@),
            forall|k: int| 0 <= k < i ==> sv[k] != name@,
        decreases seen@.len() - i,
    {
        if chars_eq(seen[i].as_slice(), name) {
            assert(sv[i as int] == name@);
            return true;
        }
        i = i + 1;
    }
    false
}

impl TableShape {
    /// Classifies the entries of a table constructor: how many are
    /// positional, which keys it names, and whether a key repeats.
    pub fn analyze(entries: &[TableEntry]) -> (r: Self)
        ensures
            r.array_capacity == array_count(entries@),
            r.hash_capacity == keys_of(entries@).to_set().len(),
            r.has_duplicate_keys == !keys_of(entries@).no_duplicates(),
            entries@.len() == 0 ==> r.kind is Empty,
            entries@.len() > 0 && keys_of(entries@).len() == 0 ==> r.kind == TableShapeKind::PureArray(
                array_count(entries@) as usize,
            ),
            entries@.len() > 0 && array_count(entries@) == 0 ==> (r.kind matches TableShapeKind::Record(
                names,
            ) && string_views(names@) == keys_of(entries@)),
            array_count(entries@) > 0 && keys_of(entries@).len() > 0 ==> (r.kind matches TableShapeKind::Mixed {
                array_len,
                fields,
            } && array_len == array_count(entries@) && string_views(fields@) == keys_of(
                entries@,
            )),
    {
        proof {
            lemma_counts(entries@);
        }
        if entries.len() == 0 {
            assert(keys_of(entries@) =~= Seq::<Seq<char>>::empty());
            proof {
                keys_of(entries@).lemma_cardinality_of_empty_set_is_0();
            }
            return TableShape {
                kind: TableShapeKind::Empty,
                array_capacity: 0,
                hash_capacity: 0,
                has_duplicate_keys: false,
            };
        }
        let mut array_count_v: usize = 0;
        let mut field_names: Vec<String> = Vec::new();
        let mut seen: Vec<Vec<char>> = Vec::new();
        let mut has_duplicate_keys = false;
        let mut i: usize = 0;
        while i < entries.len()
            invariant
                i <= entries@.len(),
                array_count_v == array_count(entries@.take(i as int)),
                string_views(field_names@) == keys_of(entries@.take(i as int)),
                Seq::new(seen@.len(), |k: int| seen@[k]@).no_duplicates(),
                Seq::new(seen@.len(), |k: int| seen@[k]@).to_set() == keys_of(
                    entries@.take(i as int),
                ).to_set(),
                has_duplicate_keys == !keys_of(entries@.take(i as int)).no_duplicates(),
                array_count(entries@.take(i as int)) + keys_of(entries@.take(i as int)).len()
                    == i,
            decreases entries@.len() - i,
        {
            let ghost prev = entries@.take(i as int);
            let ghost sv_prev = Seq::new(seen@.len(), |k: int| seen@[k]@);
            assert(entries@.take(i + 1).drop_last() =~= prev);
            assert(entries@.take(i + 1).last() == entries@[i as int]);
            proof {
                lemma_counts(entries@.take(i + 1));
            }
            match &entries[i].key {
                None => {
                    array_count_v = array_count_v + 1;
                },
                Some(name) => {
                    let name_chars = chars_of(name.as_str());
                    let ghost keys_prev = keys_of(prev);
                    let ghost keys_next = keys_prev.push(name@);
                    assert(keys_of(entries@.take(i + 1)) == keys_next);
                    proof {
                        keys_prev.lemma_push_to_set_commute(name@);
                        sv_prev.lemma_push_to_set_commute(name@);
                    }
                    if contains_name(&seen, name_chars.as_slice()) {
                        has_duplicate_keys = true;
                        assert(keys_prev.to_set().contains(name@));
                        let ghost j = choose|j: int| 0 <= j < keys_prev.len() && keys_prev[j] == name@;
                        assert(keys_next[j] == keys_next[keys_next.len() - 1]);
                        assert(!keys_next.no_duplicates());
                        assert(keys_next.to_set() =~= keys_prev.to_set());
                    } else {
                        seen.push(name_chars);
                        let ghost sv = Seq::new(seen@.len(), |k: int| seen@[k]@);
                        assert(sv =~= sv_prev.push(name@));
                        assert(!keys_prev.to_set().contains(name@));
                        if !has_duplicate_keys {
                            assert forall|a: int, b: int|
                                0 <= a < keys_next.len() && 0 <= b < keys_next.len() && a != b
                                implies keys_next[a] != keys_next[b] by {
                                if a == keys_next.len() - 1 {
                                    assert(keys_prev.to_set().contains(keys_prev[b]));
                                } else if b == keys_next.len() - 1 {
                                    assert(keys_prev.to_set().contains(keys_prev[a]));
                                }
                            }
                        } else {
                            assert(!keys_prev.no_duplicates());
                            let ghost (a, b) = choose|a: int, b: int|
                                0 <= a < keys_prev.len() && 0 <= b < keys_prev.len() && a != b
                                    && keys_prev[a] == keys_prev[b];
                            assert(keys_next[a] == keys_next[b]);
                        }
                    }
                    field_names.push(name.clone());
                    assert(string_views(field_names@) =~= keys_next);
                },
            }
            i = i + 1;
        }
        assert(entries@.take(entries@.len() as int) =~= entries@);
        let ghost sv = Seq::new(seen@.len(), |k: int| seen@[k]@);
        proof {
            sv.unique_seq_to_set();
        }
        let hash_capacity = seen.len();
        let kind = if field_names.len() == 0 {
            TableShapeKind::PureArray(array_count_v)
        } else if array_count_v == 0 {
            TableShapeKind::Record(field_names)
        } else {
            TableShapeKind::Mixed { array_len: array_count_v, fields: field_names }
        };
        TableShape { kind, array_capacity: array_count_v, hash_capacity, has_duplicate_keys }
    }

    /// Whether the constructor can fill its array part with one batch
    /// instruction: between 1 and 250 positional entries.
    pub fn qualifies_for_setlist(&self) -> (r: bool)
        ensures
            r == match self.kind {
                TableShapeKind::PureArray(len) => 0 < len <= 250,
                TableShapeKind::Mixed { array_len, .. } => 0 < array_len <= 250,
                _ => false,
            },
    {
        match self.kind {
            TableShapeKind::PureArray(len) => len > 0 && len <= 250,
            TableShapeKind::Mixed { array_len, .. } => array_len > 0 && array_len <= 250,
            _ => false,
        }
    }
}

/// Whether `r` is the shape `TableShape::analyze` gives for `es`.
pub open spec fn shape_of(r: TableShape, es: Seq<TableEntry>) -> bool {
    &&& r.array_capacity == array_count(es)
    &&& r.hash_capacity == keys_of(es).to_set().len()
    &&& r.has_duplicate_keys == !keys_of(es).no_duplicates()
    &&& es.len() == 0 ==> r.kind is Empty
    &&& es.len() > 0 && keys_of(es).len() == 0 ==> r.kind == TableShapeKind::PureArray(array_count(es) as usize)
    &&& es.len() > 0 && array_count(es) == 0 ==> (r.kind matches TableShapeKind::Record(names) && string_views(
        names@,
    ) == keys_of(es))
    &&& array_count(es) > 0 && keys_of(es).len() > 0 ==> (r.kind matches TableShapeKind::Mixed {
        array_len,
        fields,
    } && array_len == array_count(es) && string_views(fields@) == keys_of(es))
}

/// The entry lists of the table constructors in an expression tree, outside
/// function bodies, in pre-order: a table before the tables nested in it,
/// operands left to right.
pub open spec fn tables_of(e: Expr) -> Seq<Seq<TableEntry>>
    decreases e,
{
    match e {
        Expr::Table(entries) => seq![entries@] + tables_in_entries(entries@),
        Expr::Call { callee, args } => tables_of(*callee) + tables_in(args@),
        Expr::MethodCall { object, args, .. } => tables_of(*object) + tables_in(args@),
        Expr::Binary { left, right, .. } => tables_of(*left) + tables_of(*right),
        Expr::Unary { expr, .. } => tables_of(*expr),
        Expr::Member { object, .. } => tables_of(*object),
        Expr::Index { object, index } => tables_of(*object) + tables_of(*index),
        _ => Seq::empty(),
    }
}

/// The tables of a list of expressions, one after another.
pub open spec fn tables_in(es: Seq<Expr>) -> Seq<Seq<TableEntry>>
    decreases es,
{
    if es.len() == 0 {
        Seq::empty()
    } else {
        tables_in(es.drop_last()) + tables_of(es.last())
    }
}

/// The tables of the values of a list of table entries.
pub open spec fn tables_in_entries(es: Seq<TableEntry>) -> Seq<Seq<TableEntry>>
    decreases es,
{
    if es.len() == 0 {
        Seq::empty()
    } else {
        tables_in_entries(es.drop_last()) + tables_of(es.last().value)
    }
}

/// `after` is `before` with the shapes of `tables` appended, in order.
pub open spec fn appended(before: Seq<TableShape>, after: Seq<TableShape>, tables: Seq<Seq<TableEntry>>) -> bool {
    &&& after.len() == before.len() + tables.len()
    &&& after.take(before.len() as int) == before
    &&& forall|k: int| 0 <= k < tables.len() ==> shape_of(#[trigger] after[before.len() + k], tables[k])
}

proof fn lemma_appended_nil(o: Seq<TableShape>)
    ensures
        appended(o, o, Seq::empty()),
{
    assert(o.take(o.len() as int) =~= o);
}

proof fn lemma_appended_chain(
    o: Seq<TableShape>,
    mid: Seq<TableShape>,
    fin: Seq<TableShape>,
    a: Seq<Seq<TableEntry>>,
    b: Seq<Seq<TableEntry>>,
)
    requires
        appended(o, mid, a),
        appended(mid, fin, b),
    ensures
        appended(o, fin, a + b),
{
    assert(fin.take(o.len() as int) =~= mid.take(o.len() as int)) by {
        assert forall|k: int| 0 <= k < o.len() implies fin[k] == mid[k] by {
            assert(fin.take(mid.len() as int)[k] == mid[k]);
        }
    }
    assert forall|k: int| 0 <= k < (a + b).len() implies shape_of(
        #[trigger] fin[o.len() + k],
        (a + b)[k],
    ) by {
        if k < a.len() {
            assert(fin.take(mid.len() as int)[o.len() + k] == mid[o.len() + k]);
            assert(shape_of(mid[o.len() + k], a[k]));
        } else {
            let j = k - a.len();
            assert(shape_of(fin[mid.len() + j], b[j]));
        }
    }
}

/// Collects the shape of every table constructor in an expression (outside
/// function bodies), outermost first.
pub fn analyze_expr_shapes(expr: &Expr, out: &mut Vec<TableShape>)
    ensures
        appended(old(out)@, final(out)@, tables_of(*expr)),
    decreases expr,
{
    let ghost o = out@;
    match expr {
        Expr::Table(entries) => {
            out.push(TableShape::analyze(entries.as_slice()));
            let ghost mid = out@;
            proof {
                assert(mid.take(o.len() as int) =~= o);
                assert(mid[o.len() as int] == mid.last());
                assert(appended(o, mid, seq![entries@]));
            }
            analyze_entries(entries, out);
            proof {
                lemma_appended_chain(o, mid, out@, seq![entries@], tables_in_entries(entries@));
            }
        },
        Expr::Call { callee, args } => {
            analyze_expr_shapes(callee, out);
            let ghost mid = out@;
            analyze_exprs(args, out);
            proof {
                lemma_appended_chain(o, mid, out@, tables_of(**callee), tables_in(args@));
            }
        },
        Expr::MethodCall { object, args, .. } => {
            analyze_expr_shapes(object, out);
            let ghost mid = out@;
            analyze_exprs(args, out);
            proof {
                lemma_appended_chain(o, mid, out@, tables_of(**object), tables_in(args@));
            }
        },
        Expr::Binary { left, right, .. } => {
            analyze_expr_shapes(left, out);
            let ghost mid = out@;
            analyze_expr_shapes(right, out);
            proof {
                lemma_appended_chain(o, mid, out@, tables_of(**left), tables_of(**right));
            }
        },
        Expr::Unary { expr, .. } => {
            analyze_expr_shapes(expr, out);
        },
        Expr::Member { object, .. } => {
            analyze_expr_shapes(object, out);
        },
        Expr::Index { object, index } => {
            analyze_expr_shapes(object, out);
            let ghost mid = out@;
            analyze_expr_shapes(index, out);
            proof {
                lemma_appended_chain(o, mid, out@, tables_of(**object), tables_of(**index));
            }
        },
        _ => {
            proof {
                lemma_appended_nil(o);
            }
        },
    }
}

fn analyze_exprs(es: &Vec<Expr>, out: &mut Vec<TableShape>)
    ensures
        appended(old(out)@, final(out)@, tables_in(es@)),
    decreases es,
{
    let mut i: usize = 0;
    proof {
        lemma_appended_nil(out@);
        assert(es@.take(0) =~= Seq::<Expr>::empty());
    }
    while i < es.len()
        invariant
            i <= es@.len(),
            appended(old(out)@, out@, tables_in(es@.take(i as int))),
        decreases es@.len() - i,
    {
        proof {
            assert(decreases_to!(es => es@[i as int]));
        }
        let ghost before = out@;
        analyze_expr_shapes(&es[i], out);
        proof {
            assert(es@.take(i + 1).drop_last() =~= es@.take(i as int));
            lemma_appended_chain(old(out)@, before, out@, tables_in(es@.take(i as int)), tables_of(es@[i as int]));
        }
        i = i + 1;
    }
    assert(es@.take(es@.len() as int) =~= es@);
}

fn analyze_entries(es: &Vec<TableEntry>, out: &mut Vec<TableShape>)
    ensures
        appended(old(out)@, final(out)@, tables_in_entries(es@)),
    decreases es,
{
    let mut i: usize = 0;
    proof {
        lemma_appended_nil(out@);
        assert(es@.take(0) =~= Seq::<TableEntry>::empty());
    }
    while i < es.len()
        invariant
            i <= es@.len(),
            appended(old(out)@, out@, tables_in_entries(es@.take(i as int))),
        decreases es@.len() - i,
    {
        proof {
            assert(decreases_to!(es => es@[i as int]));
        }
        let ghost before = out@;
        analyze_expr_shapes(&es[i].value, out);
        proof {
            assert(es@.take(i + 1).drop_last() =~= es@.take(i as int));
            lemma_appended_chain(
                old(out)@,
                before,
                out@,
                tables_in_entries(es@.take(i as int)),
                tables_of(es@[i as int].value),
            );
        }
        i = i + 1;
    }
    assert(es@.take(es@.len() as int) =~= es@);
}

} // verus!
