use vstd::prelude::*;

use crate::clause::{Clause, LitV, Literal, dedup_push};
use crate::text::{first_idx, is_space, is_space_char, lemma_first_idx, str_eq, trim_str,
    trim_view};

verus! {

pub open spec fn msg_no_formula() -> Seq<char> {
    "No formula given."@
}

pub open spec fn msg_unmatched() -> Seq<char> {
    "Curly braces do not match"@
}

pub open spec fn msg_missing() -> Seq<char> {
    "There are no curly braces. Each clause must use exactly one set of curly braces, e.g. {p, q}."@
}

pub open spec fn msg_excess() -> Seq<char> {
    "There are too many curly braces. Each clause must use exactly one set of curly braces, e.g. {p, q}. All the clauses may be enclosed in one set of curly braces (or not). E.g. {{p, q}, {r, s}} or {p, q}, {r, s}"@
}

pub open spec fn msg_separator() -> Seq<char> {
    "Clauses may only be separated by comma and/or whitespace. E.g. {p, q} , {r, s} is valid, as is {p, q}{r, s}"@
}

pub open spec fn msg_bad_neg(first: Seq<char>, t: Seq<char>) -> Seq<char> {
    "Invalid negation symbol: "@ + first + ". For reference, the variable substring parsed was "@
        + t
}

pub open spec fn msg_empty_lit(t: Seq<char>) -> Seq<char> {
    "Failed to parse variable, literal was empty. For reference, the variable substring parsed was "@
        + t
}

pub open spec fn msg_name_ws(name: Seq<char>, t: Seq<char>) -> Seq<char> {
    "Variable name contains whitespaces. For reference, the variable name was extracted as "@
        + name + " and the variable substring parsed was "@ + t
}

pub open spec fn msg_only_neg(t: Seq<char>) -> Seq<char> {
    "Failed to parse variable, literal consisted of only a negation symbol, missing a variable. For reference, the variable substring parsed was "@
        + t
}

pub open spec fn msg_clause(m: Seq<char>) -> Seq<char> {
    "Failed to parse clause. "@ + m
}

/// The contribution of one character to the brace depth.
pub open spec fn delta(c: char) -> int {
    if c == '{' {
        1
    } else if c == '}' {
        -1
    } else {
        0
    }
}

/// The brace depth after reading all of `s`.
pub open spec fn depth(s: Seq<char>) -> int
    decreases s.len(),
{
    if s.len() == 0 {
        0
    } else {
        depth(s.drop_last()) + delta(s.last())
    }
}

/// The greatest brace depth reached by any prefix of `s`.
pub open spec fn maxd(s: Seq<char>) -> int
    decreases s.len(),
{
    if s.len() == 0 {
        0
    } else if maxd(s.drop_last()) >= depth(s) {
        maxd(s.drop_last())
    } else {
        depth(s)
    }
}

/// Whether the brace depth of some prefix of `s` goes negative.
pub open spec fn neg_pref(s: Seq<char>) -> bool
    decreases s.len(),
{
    if s.len() == 0 {
        false
    } else {
        neg_pref(s.drop_last()) || depth(s) < 0
    }
}

pub proof fn lemma_neg_pref_prefix(s: Seq<char>, k: int)
    requires
        0 <= k <= s.len(),
        neg_pref(s.take(k)),
    ensures
        neg_pref(s),
    decreases s.len() - k,
{
    if k < s.len() {
        assert(s.take(k + 1).drop_last() =~= s.take(k));
        lemma_neg_pref_prefix(s, k + 1);
    } else {
        assert(s.take(k) =~= s);
    }
}

/// The number of whitespace characters in `s`.
pub open spec fn count_spaces(s: Seq<char>) -> int
    decreases s.len(),
{
    if s.len() == 0 {
        0
    } else {
        count_spaces(s.drop_last()) + (if is_space(s.last()) {
            1int
        } else {
            0int
        })
    }
}

pub proof fn lemma_count_spaces_zero(s: Seq<char>)
    ensures
        (count_spaces(s) == 0) <==> (forall|j: int| 0 <= j < s.len() ==> !is_space(s[j])),
        count_spaces(s) >= 0,
    decreases s.len(),
{
    if s.len() > 0 {
        lemma_count_spaces_zero(s.drop_last());
        if count_spaces(s) == 0 {
            assert forall|j: int| 0 <= j < s.len() implies !is_space(s[j]) by {
                if j < s.len() - 1 {
                    assert(s.drop_last()[j] == s[j]);
                }
            }
        } else {
            if forall|j: int| 0 <= j < s.len() ==> !is_space(s[j]) {
                assert forall|j: int| 0 <= j < s.drop_last().len() implies !is_space(
                    s.drop_last()[j],
                ) by {
                    assert(s.drop_last()[j] == s[j]);
                }
                assert(!is_space(s.last()));
                assert(false);
            }
        }
    }
}

/// A whole token that marks negation.
pub open spec fn spec_is_neg_symbol(s: Seq<char>) -> bool {
    s == "!"@ || s == "~"@ || s == "¬"@ || s == "not"@ || s == "\\neg"@
}

/// A single character that marks negation.
pub open spec fn is_single_neg(c: char) -> bool {
    c == '!' || c == '~' || c == '¬'
}

/// The outcome of reading one variable token: a literal, or a diagnostic.
pub open spec fn spec_parse_variable(v: Seq<char>) -> Result<LitV, Seq<char>> {
    let t = trim_view(v);
    if count_spaces(t) > 0 {
        let k = first_idx(t, |c: char| is_space(c), 0);
        let first = t.subrange(0, k);
        let rest = t.subrange(k + 1, t.len() as int);
        if spec_is_neg_symbol(first) {
            let name = trim_view(rest);
            if count_spaces(name) > 0 {
                Err(msg_name_ws(name, t))
            } else if name.len() == 0 {
                Err(msg_empty_lit(t))
            } else {
                Ok(LitV { name, neg: true })
            }
        } else {
            Err(msg_bad_neg(first, t))
        }
    } else {
        if t.len() == 0 {
            Err(msg_empty_lit(t))
        } else {
            let neg = is_single_neg(t[0]);
            let name = if neg {
                t.subrange(1, t.len() as int)
            } else {
                t
            };
            if name.len() == 0 {
                Err(msg_only_neg(t))
            } else {
                Ok(LitV { name, neg })
            }
        }
    }
}

/// The outcome of reading a clause body from position `i`, the current
/// token having started at `start`, with `acc` already collected.
pub open spec fn spec_parse_clause_from(s: Seq<char>, start: int, i: int, acc: Seq<LitV>) -> Result<
    Seq<LitV>,
    Seq<char>,
>
    decreases s.len() - i,
{
    if i < 0 || i > s.len() || start < 0 || start > i {
        Ok(acc)
    } else if i == s.len() {
        match spec_parse_variable(s.subrange(start, i)) {
            Ok(lv) => Ok(dedup_push(acc, lv)),
            Err(m) => Err(msg_clause(m)),
        }
    } else if s[i] == ',' {
        match spec_parse_variable(s.subrange(start, i)) {
            Ok(lv) => spec_parse_clause_from(s, i + 1, i + 1, dedup_push(acc, lv)),
            Err(m) => Err(msg_clause(m)),
        }
    } else {
        spec_parse_clause_from(s, start, i + 1, acc)
    }
}

/// The outcome of reading one clause body.
pub open spec fn spec_parse_clause(s: Seq<char>) -> Result<Seq<LitV>, Seq<char>> {
    spec_parse_clause_from(s, 0, 0, Seq::<LitV>::empty())
}

/// The outcome of scanning the clause region from position `i`. A
/// non-negative `start` marks an open clause begun just after its brace.
pub open spec fn scan_clauses(t: Seq<char>, i: int, start: int, acc: Seq<Seq<LitV>>) -> Result<
    Seq<Seq<LitV>>,
    Seq<char>,
>
    decreases t.len() - i,
{
    if i < 0 || i > t.len() {
        Ok(acc)
    } else if i == t.len() {
        if start >= 0 {
            Err(msg_unmatched())
        } else {
            Ok(acc)
        }
    } else if t[i] == '{' {
        scan_clauses(t, i + 1, i + 1, acc)
    } else if t[i] == '}' {
        if start >= 0 {
            match spec_parse_clause(t.subrange(start, i)) {
                Ok(c) => scan_clauses(t, i + 1, -1, acc.push(c)),
                Err(m) => Err(m),
            }
        } else {
            Err(msg_separator())
        }
    } else if start < 0 && !(is_space(t[i]) || t[i] == ',') {
        Err(msg_separator())
    } else {
        scan_clauses(t, i + 1, start, acc)
    }
}

/// The clause region of the input: the trimmed text, with the optional
/// enclosing brace pair stripped when the depth reaches two.
pub open spec fn clause_region(s: Seq<char>) -> Seq<char> {
    let t0 = trim_view(s);
    if maxd(s) == 2 && t0.len() >= 2 {
        trim_view(t0.subrange(1, t0.len() - 1))
    } else {
        t0
    }
}

/// The outcome of parsing a whole formula: its clauses, or the first
/// diagnostic, checked in this order: empty input, brace mismatch, missing
/// braces, excessive nesting, then the clause scan.
pub open spec fn spec_parse_input(s: Seq<char>) -> Result<Seq<Seq<LitV>>, Seq<char>> {
    if s.len() == 0 {
        Err(msg_no_formula())
    } else if neg_pref(s) || depth(s) != 0 {
        Err(msg_unmatched())
    } else if maxd(s) == 0 {
        Err(msg_missing())
    } else if maxd(s) > 2 {
        Err(msg_excess())
    } else {
        scan_clauses(clause_region(s), 0, -1, Seq::<Seq<LitV>>::empty())
    }
}

/// Recognises a whole negation token.
pub fn is_negation_symbol(negation_string: &str) -> (r: bool)
    ensures
        r == spec_is_neg_symbol(negation_string@),
{
    str_eq(negation_string, "!") || str_eq(negation_string, "~") || str_eq(negation_string, "¬")
        || str_eq(negation_string, "not") || str_eq(negation_string, "\\neg")
}

/// Reads one variable token: an optional negation marker, then a name with
/// no internal whitespace. Returns exactly what the token grammar assigns
/// to the text: the literal, or the specific diagnostic.
pub fn parse_variable(variable_string: &str) -> (r: Result<Literal, String>)
    ensures
        r is Ok <==> spec_parse_variable(variable_string@) is Ok,
        r is Ok ==> r->Ok_0@ == spec_parse_variable(variable_string@)->Ok_0,
        r is Err ==> r->Err_0@ == spec_parse_variable(variable_string@)->Err_0,
{
    let t = trim_str(variable_string);
    let n = t.unicode_len();
    let ghost tv = t@;
    // count the whitespace characters inside the trimmed token
    let mut nsp: usize = 0;
    let mut i: usize = 0;
    while i < n
        invariant
            0 <= i <= n,
            n == tv.len(),
            tv == t@,
            nsp <= i,
            nsp == count_spaces(tv.take(i as int)),
        decreases n - i,
    {
        proof {
            assert(tv.take(i + 1).drop_last() =~= tv.take(i as int));
            assert(tv.take(i + 1).last() == tv[i as int]);
        }
        let c = t.get_char(i);
        if is_space_char(c) {
            nsp = nsp + 1;
        }
        i = i + 1;
    }
    proof {
        assert(tv.take(n as int) =~= tv);
    }
    if nsp > 0 {
        // split at the first whitespace character
        let mut k: usize = 0;
        while k < n
            invariant
                0 <= k <= n,
                n == tv.len(),
                tv == t@,
                forall|j: int| 0 <= j < k ==> !is_space(tv[j]),
            ensures
                0 <= k <= n,
                forall|j: int| 0 <= j < k ==> !is_space(tv[j]),
                k < n ==> is_space(tv[k as int]),
            decreases n - k,
        {
            let c = t.get_char(k);
            if is_space_char(c) {
                break ;
            }
            k = k + 1;
        }
        proof {
            if k == n {
                lemma_count_spaces_zero(tv);
                assert(false);
            }
            lemma_first_idx(tv, |c: char| is_space(c), 0, k as int);
        }
        let first = t.substring_char(0, k);
        let rest = t.substring_char(k + 1, n);
        if is_negation_symbol(first) {
            let name_str = trim_str(rest);
            let m = name_str.unicode_len();
            let ghost nv = name_str@;
            let mut nsp2: usize = 0;
            let mut q: usize = 0;
            while q < m
                invariant
                    0 <= q <= m,
                    m == nv.len(),
                    nv == name_str@,
                    nsp2 <= q,
                    nsp2 == count_spaces(nv.take(q as int)),
                decreases m - q,
            {
                proof {
                    assert(nv.take(q + 1).drop_last() =~= nv.take(q as int));
                    assert(nv.take(q + 1).last() == nv[q as int]);
                }
                let c = name_str.get_char(q);
                if is_space_char(c) {
                    nsp2 = nsp2 + 1;
                }
                q = q + 1;
            }
            proof {
                assert(nv.take(m as int) =~= nv);
            }
            if nsp2 > 0 {
                let mut msg = String::new();
                msg.append("Variable name contains whitespaces. For reference, the variable name was extracted as ");
                msg.append(name_str);
                msg.append(" and the variable substring parsed was ");
                msg.append(t);
                return Err(msg);
            }
            if m == 0 {
                let mut msg = String::new();
                msg.append("Failed to parse variable, literal was empty. For reference, the variable substring parsed was ");
                msg.append(t);
                return Err(msg);
            }
            Ok(Literal::new(name_str.to_owned(), true))
        } else {
            let mut msg = String::new();
            msg.append("Invalid negation symbol: ");
            msg.append(first);
            msg.append(". For reference, the variable substring parsed was ");
            msg.append(t);
            Err(msg)
        }
    } else {
        proof {
            lemma_count_spaces_zero(tv);
        }
        if n == 0 {
            let mut msg = String::new();
            msg.append("Failed to parse variable, literal was empty. For reference, the variable substring parsed was ");
            msg.append(t);
            return Err(msg);
        }
        let c0 = t.get_char(0);
        let neg = c0 == '!' || c0 == '~' || c0 == '¬';
        let name_str = if neg {
            t.substring_char(1, n)
        } else {
            t.substring_char(0, n)
        };
        proof {
            if !neg {
                assert(name_str@ =~= tv);
            }
        }
        if name_str.unicode_len() == 0 {
            let mut msg = String::new();
            msg.append("Failed to parse variable, literal consisted of only a negation symbol, missing a variable. For reference, the variable substring parsed was ");
            msg.append(t);
            return Err(msg);
        }
        Ok(Literal::new(name_str.to_owned(), neg))
    }
}

/// Reads one clause body: variable tokens separated by commas, duplicates
/// collapsing on insertion. The clause holds at least one literal on
/// success.
pub fn parse_clause(clause_string: &str) -> (r: Result<Clause, String>)
    ensures
        r is Ok <==> spec_parse_clause(clause_string@) is Ok,
        r is Ok ==> r->Ok_0@ == spec_parse_clause(clause_string@)->Ok_0,
        r is Ok ==> r->Ok_0@.no_duplicates() && r->Ok_0@.len() >= 1,
        r is Err ==> r->Err_0@ == spec_parse_clause(clause_string@)->Err_0,
{
    let ghost sv = clause_string@;
    let ghost target = spec_parse_clause(sv);
    let n = clause_string.unicode_len();
    let mut acc = Clause::new(Vec::new());
    let mut start: usize = 0;
    let mut i: usize = 0;
    while i < n
        invariant
            0 <= start <= i <= n,
            n == sv.len(),
            sv == clause_string@,
            acc@.no_duplicates(),
            spec_parse_clause_from(sv, start as int, i as int, acc@) == target,
            target == spec_parse_clause(clause_string@),
        decreases n - i,
    {
        let c = clause_string.get_char(i);
        if c == ',' {
            let part = clause_string.substring_char(start, i);
            match parse_variable(part) {
                Ok(lit) => {
                    acc.insert(lit);
                    start = i + 1;
                },
                Err(m) => {
                    let mut msg = String::new();
                    msg.append("Failed to parse clause. ");
                    msg.append(m.as_str());
                    return Err(msg);
                },
            }
        }
        i = i + 1;
    }
    let part = clause_string.substring_char(start, n);
    match parse_variable(part) {
        Ok(lit) => {
            let ghost accb = acc@;
            acc.insert(lit);
            proof {
                if accb.contains(lit@) {
                    assert(acc@.len() >= 1);
                } else {
                    assert(acc@[accb.len() as int] == lit@);
                    assert(acc@.len() >= 1);
                }
            }
            Ok(acc)
        },
        Err(m) => {
            let mut msg = String::new();
            msg.append("Failed to parse clause. ");
            msg.append(m.as_str());
            Err(msg)
        },
    }
}

/// Parses a whole formula: one or more brace-enclosed clauses separated by
/// whitespace or commas, optionally wrapped in one outer brace pair.
/// Returns the clause list, or the first diagnostic in grammar order.
pub fn parse_input(input: &str) -> (r: Result<Vec<Clause>, String>)
    ensures
        r is Ok <==> spec_parse_input(input@) is Ok,
        r is Ok ==> r->Ok_0@.map_values(|c: Clause| c@) == spec_parse_input(input@)->Ok_0,
        r is Ok ==> forall|k: int|
            0 <= k < r->Ok_0@.len() ==> (#[trigger] r->Ok_0@[k])@.no_duplicates() && r->Ok_0@[k]@.len()
                >= 1,
        r is Err ==> r->Err_0@ == spec_parse_input(input@)->Err_0,
{
    let ghost sv = input@;
    let n = input.unicode_len();
    if n == 0 {
        let mut msg = String::new();
        msg.append("No formula given.");
        proof {
            assert(msg@ =~= msg_no_formula());
        }
        return Err(msg);
    }
    // scan the brace depth
    let mut counter: i128 = 0;
    let mut maxc: i128 = 0;
    let mut i: usize = 0;
    while i < n
        invariant
            0 <= i <= n,
            n == sv.len(),
            sv == input@,
            n >= 1,
            -(i as i128) <= counter <= (i as i128),
            0 <= maxc <= (i as i128),
            counter == depth(sv.take(i as int)),
            maxc == maxd(sv.take(i as int)),
            !neg_pref(sv.take(i as int)),
        decreases n - i,
    {
        proof {
            assert(sv.take(i + 1).drop_last() =~= sv.take(i as int));
            assert(sv.take(i + 1).last() == sv[i as int]);
        }
        let c = input.get_char(i);
        if c == '{' {
            counter = counter + 1;
        } else if c == '}' {
            counter = counter - 1;
        }
        if counter > maxc {
            maxc = counter;
        }
        if counter < 0 {
            proof {
                assert(neg_pref(sv.take(i + 1)));
                lemma_neg_pref_prefix(sv, i + 1);
            }
            let mut msg = String::new();
            msg.append("Curly braces do not match");
            proof {
                assert(msg@ =~= msg_unmatched());
            }
            return Err(msg);
        }
        i = i + 1;
    }
    proof {
        assert(sv.take(n as int) =~= sv);
    }
    if counter != 0 {
        let mut msg = String::new();
        msg.append("Curly braces do not match");
        proof {
            assert(msg@ =~= msg_unmatched());
        }
        return Err(msg);
    }
    if maxc == 0 {
        let mut msg = String::new();
        msg.append("There are no curly braces. Each clause must use exactly one set of curly braces, e.g. {p, q}.");
        proof {
            assert(msg@ =~= msg_missing());
        }
        return Err(msg);
    }
    if maxc > 2 {
        let mut msg = String::new();
        msg.append("There are too many curly braces. Each clause must use exactly one set of curly braces, e.g. {p, q}. All the clauses may be enclosed in one set of curly braces (or not). E.g. {{p, q}, {r, s}} or {p, q}, {r, s}");
        proof {
            assert(msg@ =~= msg_excess());
        }
        return Err(msg);
    }
    // the clause region: trimmed, the outer brace pair stripped at depth two
    let t0 = trim_str(input);
    let t = if maxc == 2 && t0.unicode_len() >= 2 {
        trim_str(t0.substring_char(1, t0.unicode_len() - 1))
    } else {
        t0
    };
    proof {
        assert(t@ == clause_region(sv));
    }
    let ghost tv = t@;
    let ghost target = scan_clauses(tv, 0, -1, Seq::<Seq<LitV>>::empty());
    let m = t.unicode_len();
    let mut clauses: Vec<Clause> = Vec::new();
    proof {
        assert(clauses@.map_values(|c: Clause| c@) =~= Seq::<Seq<LitV>>::empty());
    }
    let mut start_set = false;
    let mut start: usize = 0;
    let mut j: usize = 0;
    while j < m
        invariant
            0 <= j <= m,
            m == tv.len(),
            tv == t@,
            start_set ==> start <= j,
            forall|k: int|
                0 <= k < clauses@.len() ==> (#[trigger] clauses@[k])@.no_duplicates()
                    && clauses@[k]@.len() >= 1,
            scan_clauses(
                tv,
                j as int,
                if start_set {
                    start as int
                } else {
                    -1
                },
                clauses@.map_values(|c: Clause| c@),
            ) == target,
            sv == input@,
            spec_parse_input(sv) == target,
        decreases m - j,
    {
        let ghost acc0 = clauses@.map_values(|c: Clause| c@);
        let c = t.get_char(j);
        if c == '{' {
            start_set = true;
            start = j + 1;
        } else if c == '}' {
            if start_set {
                let body = t.substring_char(start, j);
                match parse_clause(body) {
                    Ok(pc) => {
                        clauses.push(pc);
                        start_set = false;
                        proof {
                            assert(clauses@.map_values(|c: Clause| c@) =~= acc0.push(pc@));
                        }
                    },
                    Err(msg) => {
                        return Err(msg);
                    },
                }
            } else {
                let mut msg = String::new();
                msg.append("Clauses may only be separated by comma and/or whitespace. E.g. {p, q} , {r, s} is valid, as is {p, q}{r, s}");
                proof {
                    assert(msg@ =~= msg_separator());
                }
                return Err(msg);
            }
        } else if !start_set && !(is_space_char(c) || c == ',') {
            let mut msg = String::new();
            msg.append("Clauses may only be separated by comma and/or whitespace. E.g. {p, q} , {r, s} is valid, as is {p, q}{r, s}");
            proof {
                assert(msg@ =~= msg_separator());
            }
            return Err(msg);
        }
        j = j + 1;
    }
    proof {
        assert(tv.take(m as int) =~= tv);
    }
    if start_set {
        let mut msg = String::new();
        msg.append("Curly braces do not match");
        proof {
            assert(msg@ =~= msg_unmatched());
        }
        return Err(msg);
    }
    Ok(clauses)
}

/// Accepts or rejects a formula without building its clauses, surfacing the
/// diagnostic on rejection.
pub fn try_parse_input(input: &str) -> (r: Result<(), String>)
    ensures
        r is Ok <==> spec_parse_input(input@) is Ok,
        r is Err ==> r->Err_0@ == spec_parse_input(input@)->Err_0,
{
    match parse_input(input) {
        Ok(_) => Ok(()),
        Err(m) => Err(m),
    }
}

pub proof fn lemma_parse_clause_err_nonempty(s: Seq<char>, start: int, i: int, acc: Seq<LitV>)
    ensures
        spec_parse_clause_from(s, start, i, acc) is Err ==> spec_parse_clause_from(
            s,
            start,
            i,
            acc,
        )->Err_0.len() > 0,
    decreases s.len() - i,
{
    reveal_strlit("Failed to parse clause. ");
    if i < 0 || i > s.len() || start < 0 || start > i {
    } else if i == s.len() {
    } else if s[i] == ',' {
        match spec_parse_variable(s.subrange(start, i)) {
            Ok(lv) => {
                lemma_parse_clause_err_nonempty(s, i + 1, i + 1, dedup_push(acc, lv));
            },
            Err(m) => {},
        }
    } else {
        lemma_parse_clause_err_nonempty(s, start, i + 1, acc);
    }
}

pub proof fn lemma_scan_err_nonempty(t: Seq<char>, i: int, start: int, acc: Seq<Seq<LitV>>)
    ensures
        scan_clauses(t, i, start, acc) is Err ==> scan_clauses(t, i, start, acc)->Err_0.len() > 0,
    decreases t.len() - i,
{
    reveal_strlit("Curly braces do not match");
    reveal_strlit(
        "Clauses may only be separated by comma and/or whitespace. E.g. {p, q} , {r, s} is valid, as is {p, q}{r, s}",
    );
    if i < 0 || i > t.len() {
    } else if i == t.len() {
    } else if t[i] == '{' {
        lemma_scan_err_nonempty(t, i + 1, i + 1, acc);
    } else if t[i] == '}' {
        if start >= 0 {
            lemma_parse_clause_err_nonempty(t.subrange(start, i), 0, 0, Seq::<LitV>::empty());
            match spec_parse_clause(t.subrange(start, i)) {
                Ok(c) => {
                    lemma_scan_err_nonempty(t, i + 1, -1, acc.push(c));
                },
                Err(m) => {},
            }
        }
    } else if start < 0 && !(is_space(t[i]) || t[i] == ',') {
    } else {
        lemma_scan_err_nonempty(t, i + 1, start, acc);
    }
}

/// Grammar round-trip: the grammar gives every input exactly one outcome,
/// so a string accepted by validation is parsed without a diagnostic, and
/// a rejected string always carries a non-empty diagnostic.
pub proof fn lemma_grammar_round_trip(s: Seq<char>)
    ensures
        spec_parse_input(s) is Ok <==> !(spec_parse_input(s) is Err),
        spec_parse_input(s) is Err ==> spec_parse_input(s)->Err_0.len() > 0,
{
    reveal_strlit("No formula given.");
    reveal_strlit("Curly braces do not match");
    reveal_strlit(
        "There are no curly braces. Each clause must use exactly one set of curly braces, e.g. {p, q}.",
    );
    reveal_strlit(
        "There are too many curly braces. Each clause must use exactly one set of curly braces, e.g. {p, q}. All the clauses may be enclosed in one set of curly braces (or not). E.g. {{p, q}, {r, s}} or {p, q}, {r, s}",
    );
    if s.len() == 0 {
    } else if neg_pref(s) || depth(s) != 0 {
    } else if maxd(s) == 0 {
    } else if maxd(s) > 2 {
    } else {
        lemma_scan_err_nonempty(clause_region(s), 0, -1, Seq::<Seq<LitV>>::empty());
    }
}

} // verus!
