use crate::model::blank_node::blank_node_text;
use crate::model::term::{Literal, Term, TermView, Variable};
use crate::sparql::algebra::{
    AggregateFunction, BinaryOperator, Expression, Function, GraphPattern, QueryVariants,
    TermOrVariable, TriplePattern, UnaryOperator,
};
use crate::sparql::numeric::{append_digits, dec_digits};
use vstd::prelude::*;
use vstd::string::*;

verus! {

/// The text of a term: an IRI in angle brackets, a blank node after `_:`, a
/// string in double quotes with its language tag after `@` or its datatype
/// after `^^`.
pub open spec fn term_text(term: TermView) -> Seq<char> {
    match term {
        TermView::NamedNode { iri } => "<"@ + iri + ">"@,
        TermView::BlankNode { id } => seq!['_', ':'] + blank_node_text(id),
        TermView::Simple { value } => "\""@ + value + "\""@,
        TermView::LanguageTagged { value, language } => "\""@ + value + "\"@"@ + language,
        TermView::Typed { value, datatype } => "\""@ + value + "\"^^<"@ + datatype + ">"@,
    }
}

/// The text of a pattern position: a term, or a variable after `?`.
pub open spec fn position_text(position: TermOrVariable) -> Seq<char> {
    match position {
        TermOrVariable::Term(term) => term_text(term@),
        TermOrVariable::Variable(variable) => "?"@ + variable@,
    }
}

/// The text of a triple pattern: its positions, and a dot.
pub open spec fn triple_text(triple: TriplePattern) -> Seq<char> {
    position_text(triple.subject) + " "@ + position_text(triple.predicate) + " "@ + position_text(
        triple.object,
    ) + " ."@
}

/// The text of the first `n` triple patterns, a space before each.
pub open spec fn triples_text(triples: Seq<TriplePattern>, n: int) -> Seq<char>
    decreases n,
{
    if n <= 0 || n > triples.len() {
        Seq::empty()
    } else {
        triples_text(triples, n - 1) + " "@ + triple_text(triples[n - 1])
    }
}

/// The text of the first `n` variables, a space and `?` before each.
pub open spec fn names_text(variables: Seq<Variable>, n: int) -> Seq<char>
    decreases n,
{
    if n <= 0 || n > variables.len() {
        Seq::empty()
    } else {
        names_text(variables, n - 1) + " ?"@ + variables[n - 1]@
    }
}

/// The name of an operator with one operand.
pub open spec fn unary_name(operator: UnaryOperator) -> Seq<char> {
    match operator {
        UnaryOperator::Not => "!"@,
        UnaryOperator::Plus => "+"@,
        UnaryOperator::Minus => "-"@,
        UnaryOperator::IsIri => "isIRI"@,
        UnaryOperator::IsBlank => "isBlank"@,
        UnaryOperator::IsLiteral => "isLiteral"@,
        UnaryOperator::IsNumeric => "isNumeric"@,
        UnaryOperator::StrLen => "STRLEN"@,
        UnaryOperator::Abs => "ABS"@,
        UnaryOperator::Year => "YEAR"@,
        UnaryOperator::Month => "MONTH"@,
        UnaryOperator::Day => "DAY"@,
        UnaryOperator::Hours => "HOURS"@,
        UnaryOperator::Minutes => "MINUTES"@,
    }
}

/// The name of an operator with two operands.
pub open spec fn binary_name(operator: BinaryOperator) -> Seq<char> {
    match operator {
        BinaryOperator::Or => "||"@,
        BinaryOperator::And => "&&"@,
        BinaryOperator::Equal => "="@,
        BinaryOperator::NotEqual => "!="@,
        BinaryOperator::Less => "<"@,
        BinaryOperator::LessOrEqual => "<="@,
        BinaryOperator::Greater => ">"@,
        BinaryOperator::GreaterOrEqual => ">="@,
        BinaryOperator::SameTerm => "sameTerm"@,
        BinaryOperator::Add => "+"@,
        BinaryOperator::Subtract => "-"@,
        BinaryOperator::Multiply => "*"@,
        BinaryOperator::Contains => "CONTAINS"@,
        BinaryOperator::StrStarts => "STRSTARTS"@,
        BinaryOperator::StrEnds => "STRENDS"@,
    }
}

/// The name of a built-in function that is kept as a call.
pub open spec fn function_name(function: Function) -> Seq<char> {
    match function {
        Function::Str => "STR"@,
        Function::Lang => "LANG"@,
        Function::Datatype => "DATATYPE"@,
        Function::Concat => "CONCAT"@,
        Function::SubStr => "SUBSTR"@,
        Function::UCase => "UCASE"@,
        Function::LCase => "LCASE"@,
        Function::Regex => "REGEX"@,
        Function::Replace => "REPLACE"@,
        Function::Now => "NOW"@,
        Function::Seconds => "SECONDS"@,
        Function::Divide => "/"@,
    }
}

/// The name of an aggregate function.
pub open spec fn aggregate_name(function: AggregateFunction) -> Seq<char> {
    match function {
        AggregateFunction::Count => "COUNT"@,
        AggregateFunction::Sum => "SUM"@,
        AggregateFunction::Min => "MIN"@,
        AggregateFunction::Max => "MAX"@,
        AggregateFunction::Avg => "AVG"@,
        AggregateFunction::Sample => "SAMPLE"@,
        AggregateFunction::GroupConcat => "GROUP_CONCAT"@,
    }
}

/// The text of an expression: a term; a variable after `?`; an operator
/// with two operands between them, in brackets; every other operator and
/// function before its operands in brackets.
pub open spec fn expression_text(expression: Expression) -> Seq<char>
    decreases expression, 1int, 0int,
{
    match expression {
        Expression::Constant(term) => term_text(term@),
        Expression::Variable(variable) => "?"@ + variable@,
        Expression::Bound(variable) => "BOUND(?"@ + variable@ + ")"@,
        Expression::Unary(operator, a) => unary_name(operator) + "("@ + expression_text(*a) + ")"@,
        Expression::Binary(operator, a, b) => "("@ + expression_text(*a) + " "@ + binary_name(
            operator,
        ) + " "@ + expression_text(*b) + ")"@,
        Expression::If(condition, a, b) => "IF("@ + expression_text(*condition) + ", "@
            + expression_text(*a) + ", "@ + expression_text(*b) + ")"@,
        Expression::Coalesce(arguments) => "COALESCE("@ + arguments_text(
            expression,
            arguments.len() as int,
        ) + ")"@,
        Expression::Exists(pattern) => "EXISTS "@ + pattern_text(*pattern),
        Expression::FunctionCall(function, arguments) => function_name(function) + "("@
            + arguments_text(expression, arguments.len() as int) + ")"@,
    }
}

/// The text of the first `n` arguments of a `COALESCE` or of a call, a
/// comma and a space between them.
pub open spec fn arguments_text(expression: Expression, n: int) -> Seq<char>
    decreases expression, 0int, n,
{
    match expression {
        Expression::Coalesce(arguments) => if 0 < n <= arguments.len() {
            arguments_text(expression, n - 1) + (if n > 1 {
                ", "@
            } else {
                Seq::empty()
            }) + expression_text(arguments[n - 1])
        } else {
            Seq::empty()
        },
        Expression::FunctionCall(_, arguments) => if 0 < n <= arguments.len() {
            arguments_text(expression, n - 1) + (if n > 1 {
                ", "@
            } else {
                Seq::empty()
            }) + expression_text(arguments[n - 1])
        } else {
            Seq::empty()
        },
        _ => Seq::empty(),
    }
}

/// The text of the first `n` aggregates of a `Group`: a space, then the
/// function with `DISTINCT` where equal values count once and its argument
/// or `*` in brackets, `AS` and the variable.
pub open spec fn aggregates_text(pattern: GraphPattern, n: int) -> Seq<char>
    decreases pattern, 0int, n,
{
    match pattern {
        GraphPattern::Group(_, _, aggregates) => if 0 < n <= aggregates.len() {
            aggregates_text(pattern, n - 1) + " "@ + aggregate_name(aggregates[n - 1].0.function)
                + "("@ + (if aggregates[n - 1].0.distinct {
                "DISTINCT "@
            } else {
                Seq::empty()
            }) + (match aggregates[n - 1].0.argument {
                Some(argument) => expression_text(argument),
                None => "*"@,
            }) + ") AS ?"@ + aggregates[n - 1].1@
        } else {
            Seq::empty()
        },
        _ => Seq::empty(),
    }
}

/// The text of the first `n` sort keys of an `OrderBy`: a space, then
/// `ASC` or `DESC` and the expression in brackets.
pub open spec fn comparators_text(pattern: GraphPattern, n: int) -> Seq<char>
    decreases pattern, 0int, n,
{
    match pattern {
        GraphPattern::OrderBy(_, comparators) => if 0 < n <= comparators.len() {
            comparators_text(pattern, n - 1) + (if comparators[n - 1].descending {
                " DESC("@
            } else {
                " ASC("@
            }) + expression_text(comparators[n - 1].expression) + ")"@
        } else {
            Seq::empty()
        },
        _ => Seq::empty(),
    }
}

/// The text of a graph pattern: a basic graph pattern as its triple
/// patterns in braces, every other pattern as its name and its parts in
/// brackets.
pub open spec fn pattern_text(pattern: GraphPattern) -> Seq<char>
    decreases pattern, 1int, 0int,
{
    match pattern {
        GraphPattern::Bgp(triples) => "{"@ + triples_text(triples@, triples.len() as int) + " }"@,
        GraphPattern::Join(a, b) => "Join("@ + pattern_text(*a) + ", "@ + pattern_text(*b) + ")"@,
        GraphPattern::LeftJoin(a, b, expression) => "LeftJoin("@ + pattern_text(*a) + ", "@
            + pattern_text(*b) + (match expression {
            Some(condition) => ", "@ + expression_text(condition),
            None => Seq::empty(),
        }) + ")"@,
        GraphPattern::Filter(expression, inner) => "Filter("@ + expression_text(expression) + ", "@
            + pattern_text(*inner) + ")"@,
        GraphPattern::Union(a, b) => "Union("@ + pattern_text(*a) + ", "@ + pattern_text(*b)
            + ")"@,
        GraphPattern::Graph(name, inner) => "Graph("@ + position_text(name) + ", "@ + pattern_text(
            *inner,
        ) + ")"@,
        GraphPattern::Extend(inner, variable, expression) => "Extend("@ + pattern_text(*inner)
            + ", ?"@ + variable@ + ", "@ + expression_text(expression) + ")"@,
        GraphPattern::Minus(a, b) => "Minus("@ + pattern_text(*a) + ", "@ + pattern_text(*b)
            + ")"@,
        GraphPattern::Service(name, inner, silent) => "Service(<"@ + name@ + ">, "@ + pattern_text(
            *inner,
        ) + (if silent {
            ", SILENT"@
        } else {
            Seq::empty()
        }) + ")"@,
        GraphPattern::Group(inner, keys, aggregates) => "Group("@ + pattern_text(*inner) + ", ("@
            + names_text(keys@, keys.len() as int) + " ), ("@ + aggregates_text(
            pattern,
            aggregates.len() as int,
        ) + " ))"@,
        GraphPattern::Project(inner, variables) => "Project("@ + pattern_text(*inner) + ", ("@
            + names_text(variables@, variables.len() as int) + " ))"@,
        GraphPattern::Distinct(inner) => "Distinct("@ + pattern_text(*inner) + ")"@,
        GraphPattern::Reduced(inner) => "Reduced("@ + pattern_text(*inner) + ")"@,
        GraphPattern::OrderBy(inner, comparators) => "OrderBy("@ + pattern_text(*inner) + ", ("@
            + comparators_text(pattern, comparators.len() as int) + " ))"@,
        GraphPattern::Slice(inner, start, length) => "Slice("@ + pattern_text(*inner) + ", "@
            + dec_digits(start as nat) + (match length {
            Some(count) => ", "@ + dec_digits(count as nat),
            None => Seq::empty(),
        }) + ")"@,
    }
}

/// The base IRI of a query as a declaration, nothing where it has none.
pub open spec fn base_text(base_iri: Option<String>) -> Seq<char> {
    match base_iri {
        Some(base) => "BASE <"@ + base@ + "> "@,
        None => Seq::empty(),
    }
}

/// The text of a query: its base IRI, the word of its shape, the template
/// of a `CONSTRUCT`, and its graph pattern.
pub open spec fn query_text(query: QueryVariants) -> Seq<char> {
    match query {
        QueryVariants::Select { algebra, base_iri } => base_text(base_iri) + "SELECT "@
            + pattern_text(algebra),
        QueryVariants::Ask { algebra, base_iri } => base_text(base_iri) + "ASK "@ + pattern_text(
            algebra,
        ),
        QueryVariants::Construct { construct, algebra, base_iri } => base_text(base_iri)
            + "CONSTRUCT {"@ + triples_text(construct@, construct.len() as int) + " } WHERE "@
            + pattern_text(algebra),
        QueryVariants::Describe { algebra, base_iri } => base_text(base_iri) + "DESCRIBE "@
            + pattern_text(algebra),
    }
}

fn unary_name_of(operator: UnaryOperator) -> (name: &'static str)
    ensures
        name@ == unary_name(operator),
{
    match operator {
        UnaryOperator::Not => "!",
        UnaryOperator::Plus => "+",
        UnaryOperator::Minus => "-",
        UnaryOperator::IsIri => "isIRI",
        UnaryOperator::IsBlank => "isBlank",
        UnaryOperator::IsLiteral => "isLiteral",
        UnaryOperator::IsNumeric => "isNumeric",
        UnaryOperator::StrLen => "STRLEN",
        UnaryOperator::Abs => "ABS",
        UnaryOperator::Year => "YEAR",
        UnaryOperator::Month => "MONTH",
        UnaryOperator::Day => "DAY",
        UnaryOperator::Hours => "HOURS",
        UnaryOperator::Minutes => "MINUTES",
    }
}

fn binary_name_of(operator: BinaryOperator) -> (name: &'static str)
    ensures
        name@ == binary_name(operator),
{
    match operator {
        BinaryOperator::Or => "||",
        BinaryOperator::And => "&&",
        BinaryOperator::Equal => "=",
        BinaryOperator::NotEqual => "!=",
        BinaryOperator::Less => "<",
        BinaryOperator::LessOrEqual => "<=",
        BinaryOperator::Greater => ">",
        BinaryOperator::GreaterOrEqual => ">=",
        BinaryOperator::SameTerm => "sameTerm",
        BinaryOperator::Add => "+",
        BinaryOperator::Subtract => "-",
        BinaryOperator::Multiply => "*",
        BinaryOperator::Contains => "CONTAINS",
        BinaryOperator::StrStarts => "STRSTARTS",
        BinaryOperator::StrEnds => "STRENDS",
    }
}

fn function_name_of(function: Function) -> (name: &'static str)
    ensures
        name@ == function_name(function),
{
    match function {
        Function::Str => "STR",
        Function::Lang => "LANG",
        Function::Datatype => "DATATYPE",
        Function::Concat => "CONCAT",
        Function::SubStr => "SUBSTR",
        Function::UCase => "UCASE",
        Function::LCase => "LCASE",
        Function::Regex => "REGEX",
        Function::Replace => "REPLACE",
        Function::Now => "NOW",
        Function::Seconds => "SECONDS",
        Function::Divide => "/",
    }
}

fn aggregate_name_of(function: AggregateFunction) -> (name: &'static str)
    ensures
        name@ == aggregate_name(function),
{
    match function {
        AggregateFunction::Count => "COUNT",
        AggregateFunction::Sum => "SUM",
        AggregateFunction::Min => "MIN",
        AggregateFunction::Max => "MAX",
        AggregateFunction::Avg => "AVG",
        AggregateFunction::Sample => "SAMPLE",
        AggregateFunction::GroupConcat => "GROUP_CONCAT",
    }
}

/// Appends the text of a term.
pub fn write_term(out: &mut String, term: &Term)
    ensures
        final(out)@ == old(out)@ + term_text(term@),
{
    let ghost before = out@;
    match term {
        Term::NamedNode(node) => {
            out.append("<");
            out.append(node.as_str());
            out.append(">");
        },
        Term::BlankNode(node) => {
            let text = node.to_string();
            out.append(text.as_str());
        },
        Term::Literal(Literal::Simple { value }) => {
            out.append("\"");
            out.append(value.as_str());
            out.append("\"");
        },
        Term::Literal(Literal::LanguageTagged { value, language }) => {
            out.append("\"");
            out.append(value.as_str());
            out.append("\"@");
            out.append(language.as_str());
        },
        Term::Literal(Literal::Typed { value, datatype }) => {
            out.append("\"");
            out.append(value.as_str());
            out.append("\"^^<");
            out.append(datatype.as_str());
            out.append(">");
        },
    }
    assert(out@ =~= before + term_text(term@));
}

/// Appends the text of a pattern position.
pub fn write_position(out: &mut String, position: &TermOrVariable)
    ensures
        final(out)@ == old(out)@ + position_text(*position),
{
    let ghost before = out@;
    match position {
        TermOrVariable::Term(term) => write_term(out, term),
        TermOrVariable::Variable(variable) => {
            out.append("?");
            out.append(variable.name());
        },
    }
    assert(out@ =~= before + position_text(*position));
}

/// Appends the text of triple patterns.
pub fn write_triples(out: &mut String, triples: &Vec<TriplePattern>)
    ensures
        final(out)@ == old(out)@ + triples_text(triples@, triples@.len() as int),
{
    let ghost before = out@;
    let mut i: usize = 0;
    assert(before + triples_text(triples@, 0) =~= before);
    while i < triples.len()
        invariant
            i <= triples@.len(),
            out@ == before + triples_text(triples@, i as int),
        decreases triples@.len() - i,
    {
        let ghost done = out@;
        out.append(" ");
        write_position(out, &triples[i].subject);
        out.append(" ");
        write_position(out, &triples[i].predicate);
        out.append(" ");
        write_position(out, &triples[i].object);
        out.append(" .");
        assert(out@ =~= done + (" "@ + triple_text(triples@[i as int])));
        assert(out@ =~= before + triples_text(triples@, i + 1));
        i = i + 1;
    }
}

/// Appends the text of variables.
pub fn write_names(out: &mut String, variables: &Vec<Variable>)
    ensures
        final(out)@ == old(out)@ + names_text(variables@, variables@.len() as int),
{
    let ghost before = out@;
    let mut i: usize = 0;
    assert(before + names_text(variables@, 0) =~= before);
    while i < variables.len()
        invariant
            i <= variables@.len(),
            out@ == before + names_text(variables@, i as int),
        decreases variables@.len() - i,
    {
        out.append(" ?");
        out.append(variables[i].name());
        assert(out@ =~= before + names_text(variables@, i + 1));
        i = i + 1;
    }
}

/// Appends the text of an expression.
#[verifier::loop_isolation(false)]
pub fn write_expression(out: &mut String, expression: &Expression)
    ensures
        final(out)@ == old(out)@ + expression_text(*expression),
    decreases *expression, 1int, 0int,
{
    let ghost before = out@;
    match expression {
        Expression::Constant(term) => write_term(out, term),
        Expression::Variable(variable) => {
            out.append("?");
            out.append(variable.name());
        },
        Expression::Bound(variable) => {
            out.append("BOUND(?");
            out.append(variable.name());
            out.append(")");
        },
        Expression::Unary(operator, a) => {
            out.append(unary_name_of(*operator));
            out.append("(");
            write_expression(out, a);
            out.append(")");
        },
        Expression::Binary(operator, a, b) => {
            out.append("(");
            write_expression(out, a);
            out.append(" ");
            out.append(binary_name_of(*operator));
            out.append(" ");
            write_expression(out, b);
            out.append(")");
        },
        Expression::If(condition, a, b) => {
            out.append("IF(");
            write_expression(out, condition);
            out.append(", ");
            write_expression(out, a);
            out.append(", ");
            write_expression(out, b);
            out.append(")");
        },
        Expression::Coalesce(arguments) => {
            out.append("COALESCE(");
            let ghost start = out@;
            let mut i: usize = 0;
            assert(start + arguments_text(*expression, 0) =~= start);
            while i < arguments.len()
                invariant
                    i <= arguments@.len(),
                    out@ == start + arguments_text(*expression, i as int),
                decreases arguments@.len() - i,
            {
                if i > 0 {
                    out.append(", ");
                }
                write_expression(out, &arguments[i]);
                assert(out@ =~= start + arguments_text(*expression, i + 1));
                i = i + 1;
            }
            out.append(")");
        },
        Expression::Exists(pattern) => {
            out.append("EXISTS ");
            write_pattern(out, pattern);
        },
        Expression::FunctionCall(function, arguments) => {
            out.append(function_name_of(*function));
            out.append("(");
            let ghost start = out@;
            let mut i: usize = 0;
            assert(start + arguments_text(*expression, 0) =~= start);
            while i < arguments.len()
                invariant
                    i <= arguments@.len(),
                    out@ == start + arguments_text(*expression, i as int),
                decreases arguments@.len() - i,
            {
                if i > 0 {
                    out.append(", ");
                }
                write_expression(out, &arguments[i]);
                assert(out@ =~= start + arguments_text(*expression, i + 1));
                i = i + 1;
            }
            out.append(")");
        },
    }
    assert(out@ =~= before + expression_text(*expression));
}

/// Appends the text of a graph pattern.
pub fn write_pattern(out: &mut String, pattern: &GraphPattern)
    ensures
        final(out)@ == old(out)@ + pattern_text(*pattern),
    decreases *pattern, 1int, 0int,
{
    match pattern {
        GraphPattern::Bgp(_) => write_plain(out, pattern),
        GraphPattern::Distinct(_) => write_plain(out, pattern),
        GraphPattern::Reduced(_) => write_plain(out, pattern),
        GraphPattern::Project(_, _) => write_plain(out, pattern),
        GraphPattern::Join(_, _) => write_pair(out, pattern),
        GraphPattern::Union(_, _) => write_pair(out, pattern),
        GraphPattern::Minus(_, _) => write_pair(out, pattern),
        GraphPattern::LeftJoin(_, _, _) => write_pair(out, pattern),
        GraphPattern::Filter(_, _) => write_with_expression(out, pattern),
        GraphPattern::Extend(_, _, _) => write_with_expression(out, pattern),
        GraphPattern::Graph(_, _) => write_named(out, pattern),
        GraphPattern::Service(_, _, _) => write_named(out, pattern),
        GraphPattern::Slice(_, _, _) => write_named(out, pattern),
        GraphPattern::Group(_, _, _) => write_group(out, pattern),
        GraphPattern::OrderBy(_, _) => write_order(out, pattern),
    }
}

/// Appends the text of a pattern with one part and no expression.
fn write_plain(out: &mut String, pattern: &GraphPattern)
    requires
        *pattern is Bgp || *pattern is Distinct || *pattern is Reduced || *pattern is Project,
    ensures
        final(out)@ == old(out)@ + pattern_text(*pattern),
    decreases *pattern, 0int, 0int,
{
    let ghost before = out@;
    match pattern {
        GraphPattern::Bgp(triples) => {
            out.append("{");
            write_triples(out, triples);
            out.append(" }");
        },
        GraphPattern::Project(inner, variables) => {
            out.append("Project(");
            write_pattern(out, inner);
            out.append(", (");
            write_names(out, variables);
            out.append(" ))");
        },
        GraphPattern::Distinct(inner) => {
            out.append("Distinct(");
            write_pattern(out, inner);
            out.append(")");
        },
        GraphPattern::Reduced(inner) => {
            out.append("Reduced(");
            write_pattern(out, inner);
            out.append(")");
        },
        _ => {},
    }
    assert(out@ =~= before + pattern_text(*pattern));
}

/// Appends the text of a pattern with two patterns as its parts.
fn write_pair(out: &mut String, pattern: &GraphPattern)
    requires
        *pattern is Join || *pattern is Union || *pattern is Minus || *pattern is LeftJoin,
    ensures
        final(out)@ == old(out)@ + pattern_text(*pattern),
    decreases *pattern, 0int, 0int,
{
    let ghost before = out@;
    match pattern {
        GraphPattern::Join(a, b) => {
            out.append("Join(");
            write_pattern(out, a);
            out.append(", ");
            write_pattern(out, b);
            out.append(")");
        },
        GraphPattern::Union(a, b) => {
            out.append("Union(");
            write_pattern(out, a);
            out.append(", ");
            write_pattern(out, b);
            out.append(")");
        },
        GraphPattern::Minus(a, b) => {
            out.append("Minus(");
            write_pattern(out, a);
            out.append(", ");
            write_pattern(out, b);
            out.append(")");
        },
        GraphPattern::LeftJoin(a, b, expression) => {
            out.append("LeftJoin(");
            write_pattern(out, a);
            out.append(", ");
            write_pattern(out, b);
            match expression {
                Some(condition) => {
                    out.append(", ");
                    write_expression(out, condition);
                },
                None => {},
            }
            out.append(")");
        },
        _ => {},
    }
    assert(out@ =~= before + pattern_text(*pattern));
}

/// Appends the text of a `Filter` or of an `Extend`.
fn write_with_expression(out: &mut String, pattern: &GraphPattern)
    requires
        *pattern is Filter || *pattern is Extend,
    ensures
        final(out)@ == old(out)@ + pattern_text(*pattern),
    decreases *pattern, 0int, 0int,
{
    let ghost before = out@;
    match pattern {
        GraphPattern::Filter(expression, inner) => {
            out.append("Filter(");
            write_expression(out, expression);
            out.append(", ");
            write_pattern(out, inner);
            out.append(")");
        },
        GraphPattern::Extend(inner, variable, expression) => {
            out.append("Extend(");
            write_pattern(out, inner);
            out.append(", ?");
            out.append(variable.name());
            out.append(", ");
            write_expression(out, expression);
            out.append(")");
        },
        _ => {},
    }
    assert(out@ =~= before + pattern_text(*pattern));
}

/// Appends the text of a `Graph`, of a `Service` or of a `Slice`.
fn write_named(out: &mut String, pattern: &GraphPattern)
    requires
        *pattern is Graph || *pattern is Service || *pattern is Slice,
    ensures
        final(out)@ == old(out)@ + pattern_text(*pattern),
    decreases *pattern, 0int, 0int,
{
    let ghost before = out@;
    match pattern {
        GraphPattern::Graph(name, inner) => {
            out.append("Graph(");
            write_position(out, name);
            out.append(", ");
            write_pattern(out, inner);
            out.append(")");
        },
        GraphPattern::Service(name, inner, silent) => {
            out.append("Service(<");
            out.append(name.as_str());
            out.append(">, ");
            write_pattern(out, inner);
            if *silent {
                out.append(", SILENT");
            }
            out.append(")");
        },
        GraphPattern::Slice(inner, start, length) => {
            out.append("Slice(");
            write_pattern(out, inner);
            out.append(", ");
            append_digits(out, *start as u64);
            match length {
                Some(count) => {
                    out.append(", ");
                    append_digits(out, *count as u64);
                },
                None => {},
            }
            out.append(")");
        },
        _ => {},
    }
    assert(out@ =~= before + pattern_text(*pattern));
}

/// Appends the text of a `Group`.
#[verifier::loop_isolation(false)]
fn write_group(out: &mut String, pattern: &GraphPattern)
    requires
        *pattern is Group,
    ensures
        final(out)@ == old(out)@ + pattern_text(*pattern),
    decreases *pattern, 0int, 0int,
{
    let ghost before = out@;
    match pattern {
        GraphPattern::Group(inner, keys, aggregates) => {
            out.append("Group(");
            write_pattern(out, inner);
            out.append(", (");
            write_names(out, keys);
            out.append(" ), (");
            let ghost start = out@;
            let mut i: usize = 0;
            assert(start + aggregates_text(*pattern, 0) =~= start);
            while i < aggregates.len()
                invariant
                    i <= aggregates@.len(),
                    out@ == start + aggregates_text(*pattern, i as int),
                decreases aggregates@.len() - i,
            {
                out.append(" ");
                out.append(aggregate_name_of(aggregates[i].0.function));
                out.append("(");
                if aggregates[i].0.distinct {
                    out.append("DISTINCT ");
                }
                match &aggregates[i].0.argument {
                    Some(argument) => write_expression(out, argument),
                    None => out.append("*"),
                }
                out.append(") AS ?");
                out.append(aggregates[i].1.name());
                assert(out@ =~= start + aggregates_text(*pattern, i + 1));
                i = i + 1;
            }
            out.append(" ))");
        },
        _ => {},
    }
    assert(out@ =~= before + pattern_text(*pattern));
}

/// Appends the text of an `OrderBy`.
#[verifier::loop_isolation(false)]
fn write_order(out: &mut String, pattern: &GraphPattern)
    requires
        *pattern is OrderBy,
    ensures
        final(out)@ == old(out)@ + pattern_text(*pattern),
    decreases *pattern, 0int, 0int,
{
    let ghost before = out@;
    match pattern {
        GraphPattern::OrderBy(inner, comparators) => {
            out.append("OrderBy(");
            write_pattern(out, inner);
            out.append(", (");
            let ghost start = out@;
            let mut i: usize = 0;
            assert(start + comparators_text(*pattern, 0) =~= start);
            while i < comparators.len()
                invariant
                    i <= comparators@.len(),
                    out@ == start + comparators_text(*pattern, i as int),
                decreases comparators@.len() - i,
            {
                if comparators[i].descending {
                    out.append(" DESC(");
                } else {
                    out.append(" ASC(");
                }
                write_expression(out, &comparators[i].expression);
                out.append(")");
                assert(out@ =~= start + comparators_text(*pattern, i + 1));
                i = i + 1;
            }
            out.append(" ))");
        },
        _ => {},
    }
    assert(out@ =~= before + pattern_text(*pattern));
}

fn write_base(out: &mut String, base_iri: &Option<String>)
    ensures
        final(out)@ == old(out)@ + base_text(*base_iri),
{
    let ghost before = out@;
    match base_iri {
        Some(base) => {
            out.append("BASE <");
            out.append(base.as_str());
            out.append("> ");
        },
        None => {},
    }
    assert(out@ =~= before + base_text(*base_iri));
}

/// The text of a query.
pub fn query_to_string(query: &QueryVariants) -> (text: String)
    ensures
        text@ == query_text(*query),
{
    let mut out = String::new();
    match query {
        QueryVariants::Select { algebra, base_iri } => {
            write_base(&mut out, base_iri);
            out.append("SELECT ");
            write_pattern(&mut out, algebra);
        },
        QueryVariants::Ask { algebra, base_iri } => {
            write_base(&mut out, base_iri);
            out.append("ASK ");
            write_pattern(&mut out, algebra);
        },
        QueryVariants::Construct { construct, algebra, base_iri } => {
            write_base(&mut out, base_iri);
            out.append("CONSTRUCT {");
            write_triples(&mut out, construct);
            out.append(" } WHERE ");
            write_pattern(&mut out, algebra);
        },
        QueryVariants::Describe { algebra, base_iri } => {
            write_base(&mut out, base_iri);
            out.append("DESCRIBE ");
            write_pattern(&mut out, algebra);
        },
    }
    assert(out@ =~= query_text(*query));
    out
}

} // verus!
