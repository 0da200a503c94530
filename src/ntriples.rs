//! N-Triples text of the store's triples.
use vstd::prelude::*;
use crate::value::{Scalar, ScalarV, Value, ValueV, row_view, rows_view};
use crate::model::{RDFNodeType, NodeTypeV, xsd_string_iri};
use crate::triplestore::{Triplestore, TripleTable, TableV, table_rows};
use crate::mapping::Mapping;

verus! {

/// `c` as it stands inside a quoted literal.
pub open spec fn escape_char(c: char) -> Seq<char> {
    if c == '"' {
        seq!['\\', '"']
    } else if c == '\\' {
        seq!['\\', '\\']
    } else if c == '\n' {
        seq!['\\', 'n']
    } else if c == '\r' {
        seq!['\\', 'r']
    } else if c == '\t' {
        seq!['\\', 't']
    } else {
        seq![c]
    }
}

/// A lexical form with `"`, `\`, newline, carriage return and tab escaped.
pub open spec fn escape(s: Seq<char>) -> Seq<char>
    decreases s.len(),
{
    if s.len() == 0 {
        seq![]
    } else {
        escape(s.drop_last()) + escape_char(s.last())
    }
}

pub open spec fn digit_char(d: nat) -> char {
    if d == 0 { '0' } else if d == 1 { '1' } else if d == 2 { '2' } else if d == 3 { '3' } else if d == 4 { '4' }
    else if d == 5 { '5' } else if d == 6 { '6' } else if d == 7 { '7' } else if d == 8 { '8' } else { '9' }
}

/// The decimal digits of `n`.
pub open spec fn nat_digits(n: nat) -> Seq<char>
    decreases n,
{
    if n < 10 {
        seq![digit_char(n)]
    } else {
        nat_digits(n / 10).push(digit_char(n % 10))
    }
}

/// The decimal numeral of `i`.
pub open spec fn decimal(i: int) -> Seq<char> {
    if i < 0 { seq!['-'] + nat_digits((-i) as nat) } else { nat_digits(i as nat) }
}

/// The lexical form of a value.
pub open spec fn lexical(s: ScalarV) -> Seq<char> {
    match s {
        ScalarV::Iri(x) => x,
        ScalarV::Text(x) => x,
        ScalarV::Int(i) => decimal(i as int),
        ScalarV::Bool(b) => if b { "true"@ } else { "false"@ },
    }
}

/// A term in N-Triples syntax, given the type of its column and its
/// language tag cell.
pub open spec fn term_text(v: ValueV, t: NodeTypeV, tag: ValueV) -> Seq<char> {
    match v {
        ValueV::Item(s) => match t {
            NodeTypeV::IRI => seq!['<'] + lexical(s) + seq!['>'],
            NodeTypeV::BlankNode => seq!['_', ':'] + lexical(s),
            NodeTypeV::Literal(dt) => match tag {
                ValueV::Item(ScalarV::Text(lang)) => seq!['"'] + escape(lexical(s)) + seq!['"', '@'] + lang,
                _ => if dt == xsd_string_iri() {
                    seq!['"'] + escape(lexical(s)) + seq!['"']
                } else {
                    seq!['"'] + escape(lexical(s)) + seq!['"', '^', '^', '<'] + dt + seq!['>']
                },
            },
            NodeTypeV::Unknown => seq!['"'] + escape(lexical(s)) + seq!['"'],
        },
        _ => seq![],
    }
}

/// The line of one stored triple.
pub open spec fn triple_line(t: TableV, r: Seq<ValueV>) -> Seq<char> {
    let tag = if r.len() > 2 { r[2] } else { ValueV::Null };
    term_text(r[0], NodeTypeV::IRI, ValueV::Null) + seq![' ', '<'] + t.predicate + seq!['>', ' ']
        + term_text(r[1], t.object_type, tag) + seq![' ', '.', '\n']
}

pub open spec fn table_text(t: TableV, rows: Seq<Seq<ValueV>>) -> Seq<char>
    decreases rows.len(),
{
    if rows.len() == 0 {
        seq![]
    } else {
        let r = rows.last();
        table_text(t, rows.drop_last()) + if r.len() >= 2 { triple_line(t, r) } else { seq![] }
    }
}

/// The N-Triples text of the in-memory buckets, bucket by bucket.
pub open spec fn store_text(ts: Seq<TableV>) -> Seq<char>
    decreases ts.len(),
{
    if ts.len() == 0 {
        seq![]
    } else {
        store_text(ts.drop_last()) + table_text(ts.last(), table_rows(ts.last()))
    }
}

fn push_str(out: &mut String, s: &str)
    ensures
        final(out)@ == old(out)@ + s@,
{
    out.append(s);
}

/// Appends `s` with its special characters escaped.
fn push_escaped(out: &mut String, s: &str)
    ensures
        final(out)@ == old(out)@ + escape(s@),
{
    let n = s.unicode_len();
    let mut i: usize = 0;
    proof {
        assert(s@.take(0) =~= Seq::<char>::empty());
        assert(old(out)@ + escape(s@.take(0)) =~= old(out)@);
    }
    while i < n
        invariant
            i <= n,
            n == s@.len(),
            out@ == old(out)@ + escape(s@.take(i as int)),
        decreases n - i,
    {
        let c = s.get_char(i);
        let ghost before = out@;
        if c == '"' {
            proof { reveal_strlit("\\\""); }
            out.append("\\\"");
        } else if c == '\\' {
            proof { reveal_strlit("\\\\"); }
            out.append("\\\\");
        } else if c == '\n' {
            proof { reveal_strlit("\\n"); }
            out.append("\\n");
        } else if c == '\r' {
            proof { reveal_strlit("\\r"); }
            out.append("\\r");
        } else if c == '\t' {
            proof { reveal_strlit("\\t"); }
            out.append("\\t");
        } else {
            out.append(s.substring_char(i, i + 1));
            proof {
                assert(s@.subrange(i as int, i as int + 1) =~= seq![c]);
            }
        }
        proof {
            assert(s@.take(i as int + 1).drop_last() =~= s@.take(i as int));
            assert(s@.take(i as int + 1).last() == c);
            assert(out@ =~= before + escape_char(c));
            assert(old(out)@ + escape(s@.take(i as int + 1)) =~= old(out)@ + escape(s@.take(i as int)) + escape_char(c));
        }
        i += 1;
    }
    proof {
        assert(s@.take(i as int) =~= s@);
    }
}

fn digit_str(d: u64) -> (r: &'static str)
    requires
        d < 10,
    ensures
        r@ == seq![digit_char(d as nat)],
{
    if d == 0 { proof { reveal_strlit("0"); } "0" }
    else if d == 1 { proof { reveal_strlit("1"); } "1" }
    else if d == 2 { proof { reveal_strlit("2"); } "2" }
    else if d == 3 { proof { reveal_strlit("3"); } "3" }
    else if d == 4 { proof { reveal_strlit("4"); } "4" }
    else if d == 5 { proof { reveal_strlit("5"); } "5" }
    else if d == 6 { proof { reveal_strlit("6"); } "6" }
    else if d == 7 { proof { reveal_strlit("7"); } "7" }
    else if d == 8 { proof { reveal_strlit("8"); } "8" }
    else { proof { reveal_strlit("9"); } "9" }
}

fn push_digits(out: &mut String, n: u64)
    ensures
        final(out)@ == old(out)@ + nat_digits(n as nat),
    decreases n,
{
    if n < 10 {
        out.append(digit_str(n));
    } else {
        push_digits(out, n / 10);
        out.append(digit_str(n % 10));
        proof {
            assert(old(out)@ + nat_digits(n as nat) =~= old(out)@ + nat_digits((n / 10) as nat) + seq![digit_char((n % 10) as nat)]);
        }
    }
}

fn push_decimal(out: &mut String, i: i64)
    ensures
        final(out)@ == old(out)@ + decimal(i as int),
{
    if i < 0 {
        proof { reveal_strlit("-"); }
        out.append("-");
        let m: u64 = if i == i64::MIN { 9223372036854775808u64 } else { (-i) as u64 };
        push_digits(out, m);
        proof {
            assert(old(out)@ + decimal(i as int) =~= old(out)@ + seq!['-'] + nat_digits(m as nat));
        }
    } else {
        push_digits(out, i as u64);
    }
}

pub fn push_lexical(out: &mut String, s: &Scalar)
    ensures
        final(out)@ == old(out)@ + lexical(s@),
{
    match s {
        Scalar::Iri(x) => out.append(x.as_str()),
        Scalar::Text(x) => out.append(x.as_str()),
        Scalar::Int(i) => push_decimal(out, *i),
        Scalar::Bool(b) => {
            proof { reveal_strlit("true"); reveal_strlit("false"); }
            if *b { out.append("true") } else { out.append("false") }
        },
    }
}

pub fn lexical_string(s: &Scalar) -> (r: String)
    ensures
        r@ == lexical(s@),
{
    let mut r = String::new();
    push_lexical(&mut r, s);
    r
}

fn push_term(out: &mut String, v: &Value, t: &RDFNodeType, tag: &Value)
    ensures
        final(out)@ == old(out)@ + term_text(v@, t@, tag@),
{
    let ghost o = out@;
    match v {
        Value::Item(s) => {
            proof {
                reveal_strlit("<"); reveal_strlit(">"); reveal_strlit("_:"); reveal_strlit("\"");
                reveal_strlit("\"@"); reveal_strlit("\"^^<");
            }
            match t {
                RDFNodeType::IRI => {
                    out.append("<");
                    push_lexical(out, s);
                    out.append(">");
                },
                RDFNodeType::BlankNode => {
                    out.append("_:");
                    push_lexical(out, s);
                },
                RDFNodeType::Literal(dt) => {
                    let lex = lexical_string(s);
                    out.append("\"");
                    push_escaped(out, lex.as_str());
                    match tag {
                        Value::Item(Scalar::Text(lang)) => {
                            out.append("\"@");
                            out.append(lang.as_str());
                        },
                        _ => {
                            if t.is_string() {
                                out.append("\"");
                            } else {
                                out.append("\"^^<");
                                out.append(dt.as_str());
                                out.append(">");
                            }
                        },
                    }
                },
                RDFNodeType::Unknown => {
                    let lex = lexical_string(s);
                    out.append("\"");
                    push_escaped(out, lex.as_str());
                    out.append("\"");
                },
            }
            proof {
                assert(out@ =~= o + term_text(v@, t@, tag@));
            }
        },
        _ => {
            proof {
                assert(o + term_text(v@, t@, tag@) =~= o);
            }
        },
    }
}

fn push_line(out: &mut String, t: &TripleTable, r: &Vec<Value>)
    requires
        r@.len() >= 2,
    ensures
        final(out)@ == old(out)@ + triple_line(t@, row_view(r@)),
{
    let ghost o = out@;
    let null = Value::Null;
    let iri = RDFNodeType::IRI;
    push_term(out, &r[0], &iri, &null);
    proof { reveal_strlit(" <"); reveal_strlit("> "); reveal_strlit(" .\n"); }
    out.append(" <");
    out.append(t.predicate.as_str());
    out.append("> ");
    if r.len() > 2 {
        push_term(out, &r[1], &t.object_type, &r[2]);
    } else {
        push_term(out, &r[1], &t.object_type, &null);
    }
    out.append(" .\n");
    proof {
        assert(out@ =~= o + triple_line(t@, row_view(r@)));
    }
}

impl Triplestore {
    /// Appends the N-Triples text of the in-memory buckets to `buffer`.
    pub fn write_n_triples_all(&self, buffer: &mut String)
        ensures
            final(buffer)@ == old(buffer)@ + store_text(self@.tables),
    {
        let tables = self.tables();
        let ghost tv = self@.tables;
        let mut i: usize = 0;
        proof {
            assert(tv.take(0) =~= Seq::<TableV>::empty());
            assert(old(buffer)@ + store_text(tv.take(0)) =~= old(buffer)@);
        }
        while i < tables.len()
            invariant
                i <= tables.len(),
                tables@.map_values(|t: TripleTable| t@) == tv,
                buffer@ == old(buffer)@ + store_text(tv.take(i as int)),
            decreases tables.len() - i,
        {
            let t = &tables[i];
            let rows = crate::sparql::table_rows_of(t);
            let ghost rv = rows_view(rows@);
            let ghost start = buffer@;
            let mut j: usize = 0;
            proof {
                assert(rv.take(0) =~= Seq::<Seq<ValueV>>::empty());
                assert(start + table_text(t@, rv.take(0)) =~= start);
            }
            while j < rows.len()
                invariant
                    j <= rows.len(),
                    rv == rows_view(rows@),
                    buffer@ == start + table_text(t@, rv.take(j as int)),
                decreases rows.len() - j,
            {
                let ghost before = buffer@;
                if rows[j].len() >= 2 {
                    push_line(buffer, t, &rows[j]);
                }
                proof {
                    assert(rv.take(j as int + 1).drop_last() =~= rv.take(j as int));
                    assert(rv.take(j as int + 1).last() == row_view(rows@[j as int]@));
                    assert(start + table_text(t@, rv.take(j as int + 1)) =~= start + table_text(t@, rv.take(j as int))
                        + (if row_view(rows@[j as int]@).len() >= 2 { triple_line(t@, row_view(rows@[j as int]@)) } else { Seq::<char>::empty() }));
                }
                j += 1;
            }
            proof {
                assert(rv.take(j as int) =~= rv);
                assert(tv.take(i as int + 1).drop_last() =~= tv.take(i as int));
                assert(tv.take(i as int + 1).last() == t@);
                assert(old(buffer)@ + store_text(tv.take(i as int + 1)) =~= old(buffer)@ + store_text(tv.take(i as int)) + table_text(t@, table_rows(t@)));
            }
            i += 1;
        }
        proof {
            assert(tv.take(i as int) =~= tv);
        }
    }
}

impl Mapping {
    /// Appends the N-Triples text of the store to `buffer`.
    pub fn write_n_triples(&self, buffer: &mut String)
        ensures
            final(buffer)@ == old(buffer)@ + store_text(self.triplestore@.tables),
    {
        self.triplestore.write_n_triples_all(buffer)
    }
}

} // verus!
