//! The Value/Form model: one tagged union serves both as an AST node coming
//! out of the parser and as a runtime value produced by the evaluator.
//!
//! `Val` is the mathematical mirror of `Object`: every contract of the
//! library speaks about `Val` values obtained through the deep view `@`.
use vstd::prelude::*;
use vstd::string::StrSliceExecFns;
use vstd::string::StringExecFns;

verus! {

/// A form or value of the language. `List` is a form (an application,
/// control form or sequence to evaluate); `ListData` is evaluated list
/// data that is never re-interpreted as a form. A `Lambda` carries the
/// index of the environment frame captured at its definition site.
#[derive(Debug, PartialEq)]
pub enum Object {
    Void,
    Integer(i64),
    Bool(bool),
    Str(String),
    Symbol(String),
    Keyword(String),
    If,
    BinaryOp(String),
    Lambda(Vec<String>, Vec<Object>, usize),
    List(Vec<Object>),
    ListData(Vec<Object>),
}

/// Mathematical mirror of `Object`, used by every specification.
pub enum Val {
    Void,
    Integer(int),
    Bool(bool),
    Str(Seq<char>),
    Symbol(Seq<char>),
    Keyword(Seq<char>),
    If,
    BinaryOp(Seq<char>),
    Lambda(Seq<Seq<char>>, Seq<Val>, int),
    List(Seq<Val>),
    ListData(Seq<Val>),
}

pub open spec fn obj_view(o: Object) -> Val
    decreases o,
{
    match o {
        Object::Void => Val::Void,
        Object::Integer(n) => Val::Integer(n as int),
        Object::Bool(b) => Val::Bool(b),
        Object::Str(s) => Val::Str(s@),
        Object::Symbol(s) => Val::Symbol(s@),
        Object::Keyword(s) => Val::Keyword(s@),
        Object::If => Val::If,
        Object::BinaryOp(s) => Val::BinaryOp(s@),
        Object::Lambda(ps, body, e) => Val::Lambda(ps.deep_view(), objs_view(body@), e as int),
        Object::List(items) => Val::List(objs_view(items@)),
        Object::ListData(items) => Val::ListData(objs_view(items@)),
    }
}

pub open spec fn objs_view(s: Seq<Object>) -> Seq<Val>
    decreases s,
{
    if s.len() == 0 {
        Seq::empty()
    } else {
        seq![obj_view(s[0])] + objs_view(s.drop_first())
    }
}

impl View for Object {
    type V = Val;

    open spec fn view(&self) -> Val {
        obj_view(*self)
    }
}

pub proof fn lemma_objs_view(s: Seq<Object>)
    ensures
        objs_view(s).len() == s.len(),
        forall|i: int| 0 <= i < s.len() ==> objs_view(s)[i] == obj_view(s[i]),
    decreases s,
{
    if s.len() > 0 {
        lemma_objs_view(s.drop_first());
    }
}

/// A value is well formed with respect to an environment of `n` frames when
/// every lambda reachable inside it captures a frame index below `n`.
pub open spec fn val_wf(v: Val, n: int) -> bool
    decreases v,
{
    match v {
        Val::Lambda(ps, body, e) => 0 <= e < n && vals_wf(body, n),
        Val::List(items) => vals_wf(items, n),
        Val::ListData(items) => vals_wf(items, n),
        _ => true,
    }
}

pub open spec fn vals_wf(s: Seq<Val>, n: int) -> bool
    decreases s,
{
    s.len() == 0 || (val_wf(s[0], n) && vals_wf(s.drop_first(), n))
}

pub proof fn lemma_vals_wf(s: Seq<Val>, n: int)
    ensures
        vals_wf(s, n) <==> (forall|i: int| 0 <= i < s.len() ==> val_wf(s[i], n)),
    decreases s,
{
    if s.len() > 0 {
        lemma_vals_wf(s.drop_first(), n);
        assert(forall|i: int| 0 < i < s.len() ==> s.drop_first()[i - 1] == s[i]);
    }
}

pub proof fn lemma_val_wf_mono(v: Val, n: int, m: int)
    requires
        val_wf(v, n),
        n <= m,
    ensures
        val_wf(v, m),
    decreases v,
{
    match v {
        Val::Lambda(ps, body, e) => {
            lemma_vals_wf_mono(body, n, m);
        }
        Val::List(items) => {
            lemma_vals_wf_mono(items, n, m);
        }
        Val::ListData(items) => {
            lemma_vals_wf_mono(items, n, m);
        }
        _ => {}
    }
}

pub proof fn lemma_vals_wf_mono(s: Seq<Val>, n: int, m: int)
    requires
        vals_wf(s, n),
        n <= m,
    ensures
        vals_wf(s, m),
    decreases s,
{
    if s.len() > 0 {
        lemma_val_wf_mono(s[0], n, m);
        lemma_vals_wf_mono(s.drop_first(), n, m);
    }
}

impl Object {
    /// A deep copy whose view is the same mathematical value.
    pub fn duplicate(&self) -> (r: Object)
        ensures
            r@ == self@,
        decreases *self,
    {
        match self {
            Object::Void => Object::Void,
            Object::Integer(n) => Object::Integer(*n),
            Object::Bool(b) => Object::Bool(*b),
            Object::Str(s) => Object::Str(s.clone()),
            Object::Symbol(s) => Object::Symbol(s.clone()),
            Object::Keyword(s) => Object::Keyword(s.clone()),
            Object::If => Object::If,
            Object::BinaryOp(s) => Object::BinaryOp(s.clone()),
            Object::Lambda(ps, body, e) => {
                let nps = clone_strings(ps);
                let nbody = duplicate_vec(body);
                proof {
                    assert(nps.deep_view() =~= ps.deep_view());
                }
                Object::Lambda(nps, nbody, *e)
            }
            Object::List(items) => Object::List(duplicate_vec(items)),
            Object::ListData(items) => Object::ListData(duplicate_vec(items)),
        }
    }
}

fn clone_strings(v: &Vec<String>) -> (r: Vec<String>)
    ensures
        r.deep_view() == v.deep_view(),
        r@.len() == v@.len(),
{
    let mut r: Vec<String> = Vec::new();
    let mut i: usize = 0;
    while i < v.len()
        invariant
            i <= v.len(),
            r@.len() == i,
            forall|j: int| 0 <= j < i ==> r@[j]@ == v@[j]@,
        decreases v.len() - i,
    {
        r.push(v[i].clone());
        i = i + 1;
    }
    proof {
        assert(r.deep_view() =~= v.deep_view());
    }
    r
}

/// Relies on String::push: appends the given character to the end of the string.
#[verifier::external_body]
pub fn push_char(s: &mut String, c: char)
    ensures
        final(s)@ == old(s)@.push(c),
{
    s.push(c);
}

/// Equality of two string slices as their character sequences.
pub fn str_eq_str(a: &str, b: &str) -> (r: bool)
    ensures
        r == (a@ == b@),
{
    let alen = a.unicode_len();
    if alen != b.unicode_len() {
        return false;
    }
    let mut i: usize = 0;
    while i < alen
        invariant
            i <= alen,
            alen == a@.len(),
            a@.len() == b@.len(),
            forall|j: int| 0 <= j < i ==> a@[j] == b@[j],
        decreases alen - i,
    {
        let ca = a.get_char(i);
        let cb = b.get_char(i);
        if ca as u32 != cb as u32 {
            return false;
        }
        i = i + 1;
    }
    proof {
        assert(a@ =~= b@);
    }
    true
}

/// Lexicographic order on character sequences by code point; this is the
/// order std's byte-wise string comparison realises.
pub open spec fn str_lt(a: Seq<char>, b: Seq<char>) -> bool
    decreases a.len(),
{
    if b.len() == 0 {
        false
    } else if a.len() == 0 {
        true
    } else if (a[0] as u32) < (b[0] as u32) {
        true
    } else if (a[0] as u32) > (b[0] as u32) {
        false
    } else {
        str_lt(a.drop_first(), b.drop_first())
    }
}

pub fn string_lt(a: &String, b: &String) -> (r: bool)
    ensures
        r == str_lt(a@, b@),
{
    let alen = a.as_str().unicode_len();
    let blen = b.as_str().unicode_len();
    proof {
        assert(a@.skip(0) =~= a@);
        assert(b@.skip(0) =~= b@);
    }
    let mut i: usize = 0;
    loop
        invariant
            i <= alen,
            i <= blen,
            alen == a@.len(),
            blen == b@.len(),
            str_lt(a@, b@) == str_lt(a@.skip(i as int), b@.skip(i as int)),
        decreases alen - i,
    {
        proof {
            if i < alen && i < blen {
                assert(a@.skip(i as int)[0] == a@[i as int]);
                assert(b@.skip(i as int)[0] == b@[i as int]);
                assert(a@.skip(i as int).drop_first() =~= a@.skip(i as int + 1));
                assert(b@.skip(i as int).drop_first() =~= b@.skip(i as int + 1));
            }
        }
        if i >= blen {
            return false;
        }
        if i >= alen {
            return true;
        }
        let ca = a.as_str().get_char(i);
        let cb = b.as_str().get_char(i);
        if (ca as u32) < (cb as u32) {
            return true;
        }
        if (ca as u32) > (cb as u32) {
            return false;
        }
        i = i + 1;
    }
}

/// The character of one decimal digit.
pub open spec fn digit_char(d: int) -> char {
    if d == 0 { '0' }
    else if d == 1 { '1' }
    else if d == 2 { '2' }
    else if d == 3 { '3' }
    else if d == 4 { '4' }
    else if d == 5 { '5' }
    else if d == 6 { '6' }
    else if d == 7 { '7' }
    else if d == 8 { '8' }
    else { '9' }
}

/// Decimal digits of a non-negative integer, most significant first.
pub open spec fn dec_digits(n: int) -> Seq<char>
    decreases n,
{
    if n < 10 {
        seq![digit_char(n)]
    } else {
        dec_digits(n / 10).push(digit_char(n % 10))
    }
}

/// Decimal rendering of an integer, with a leading minus when negative.
pub open spec fn int_dec(n: int) -> Seq<char> {
    if n < 0 {
        seq!['-'] + dec_digits(-n)
    } else {
        dec_digits(n)
    }
}

fn digit_exec(d: u64) -> (c: char)
    requires
        d < 10,
    ensures
        c == digit_char(d as int),
{
    if d == 0 { '0' }
    else if d == 1 { '1' }
    else if d == 2 { '2' }
    else if d == 3 { '3' }
    else if d == 4 { '4' }
    else if d == 5 { '5' }
    else if d == 6 { '6' }
    else if d == 7 { '7' }
    else if d == 8 { '8' }
    else { '9' }
}

fn render_u64(n: u64) -> (r: String)
    ensures
        r@ == dec_digits(n as int),
    decreases n,
{
    if n < 10 {
        let mut s = String::new();
        push_char(&mut s, digit_exec(n));
        proof {
            assert(s@ =~= dec_digits(n as int));
        }
        s
    } else {
        let mut s = render_u64(n / 10);
        push_char(&mut s, digit_exec(n % 10));
        s
    }
}

/// Decimal rendering of an `i64`.
pub fn render_i64(n: i64) -> (r: String)
    ensures
        r@ == int_dec(n as int),
{
    if n >= 0 {
        render_u64(n as u64)
    } else {
        let mag: u64 = ((-(n + 1)) as u64) + 1;
        let mut s = String::new();
        push_char(&mut s, '-');
        let d = render_u64(mag);
        s.append(d.as_str());
        proof {
            assert(s@ =~= seq!['-'] + dec_digits(-(n as int)));
        }
        s
    }
}

/// The textual rendering of a value, used by `print` and the session display:
/// atoms as their literal text, strings quoted, lambdas as their parameter
/// list followed by their body forms, lists space-separated in parentheses.
pub open spec fn render_spec(v: Val) -> Seq<char>
    decreases v,
{
    match v {
        Val::Void => seq!['V', 'o', 'i', 'd'],
        Val::Integer(n) => int_dec(n),
        Val::Bool(b) => if b {
            seq!['t', 'r', 'u', 'e']
        } else {
            seq!['f', 'a', 'l', 's', 'e']
        },
        Val::Str(s) => seq!['"'] + s + seq!['"'],
        Val::Symbol(s) => s,
        Val::Keyword(s) => s,
        Val::If => seq!['i', 'f'],
        Val::BinaryOp(s) => s,
        Val::Lambda(ps, body, e) => seq!['L', 'a', 'm', 'b', 'd', 'a', '('] + params_render(ps)
            + seq![')'] + body_render(body),
        Val::List(items) => seq!['('] + join_render(items, Seq::empty(), true) + seq![')'],
        Val::ListData(items) => seq!['('] + join_render(items, Seq::empty(), true) + seq![')'],
    }
}

pub open spec fn params_render(ps: Seq<Seq<char>>) -> Seq<char>
    decreases ps,
{
    if ps.len() == 0 {
        Seq::empty()
    } else {
        ps[0] + seq![' '] + params_render(ps.drop_first())
    }
}

pub open spec fn body_render(body: Seq<Val>) -> Seq<char>
    decreases body,
{
    if body.len() == 0 {
        Seq::empty()
    } else {
        seq![' '] + render_spec(body[0]) + body_render(body.drop_first())
    }
}

/// Space-separated rendering of a sequence of values, appended to `acc`.
pub open spec fn join_render(items: Seq<Val>, acc: Seq<char>, first: bool) -> Seq<char>
    decreases items,
{
    if items.len() == 0 {
        acc
    } else {
        join_render(
            items.drop_first(),
            acc + (if first { Seq::<char>::empty() } else { seq![' '] }) + render_spec(items[0]),
            false,
        )
    }
}

/// Render one value as text.
pub fn render(o: &Object) -> (r: String)
    ensures
        r@ == render_spec(o@),
    decreases *o,
{
    match o {
        Object::Void => {
            let s = String::from_str("Void");
            proof {
                reveal_strlit("Void");
                assert(s@ =~= render_spec(o@));
            }
            s
        }
        Object::Integer(n) => render_i64(*n),
        Object::Bool(b) => {
            if *b {
                let s = String::from_str("true");
                proof {
                    reveal_strlit("true");
                    assert(s@ =~= render_spec(o@));
                }
                s
            } else {
                let s = String::from_str("false");
                proof {
                    reveal_strlit("false");
                    assert(s@ =~= render_spec(o@));
                }
                s
            }
        }
        Object::Str(t) => {
            let mut s = String::new();
            push_char(&mut s, '"');
            s.append(t.as_str());
            push_char(&mut s, '"');
            proof {
                assert(s@ =~= render_spec(o@));
            }
            s
        }
        Object::Symbol(t) => t.clone(),
        Object::Keyword(t) => t.clone(),
        Object::If => {
            let s = String::from_str("if");
            proof {
                reveal_strlit("if");
                assert(s@ =~= render_spec(o@));
            }
            s
        }
        Object::BinaryOp(t) => t.clone(),
        Object::Lambda(ps, body, e) => {
            let mut s = String::from_str("Lambda(");
            proof {
                reveal_strlit("Lambda(");
                assert(s@ =~= seq!['L', 'a', 'm', 'b', 'd', 'a', '(']);
            }
            let pr = render_params(ps);
            s.append(pr.as_str());
            push_char(&mut s, ')');
            let br = render_body(body);
            s.append(br.as_str());
            proof {
                assert(s@ =~= render_spec(o@));
            }
            s
        }
        Object::List(items) => {
            let mut s = String::new();
            push_char(&mut s, '(');
            let jr = render_items(items);
            s.append(jr.as_str());
            push_char(&mut s, ')');
            proof {
                assert(s@ =~= render_spec(o@));
            }
            s
        }
        Object::ListData(items) => {
            let mut s = String::new();
            push_char(&mut s, '(');
            let jr = render_items(items);
            s.append(jr.as_str());
            push_char(&mut s, ')');
            proof {
                assert(s@ =~= render_spec(o@));
            }
            s
        }
    }
}

fn render_params(ps: &Vec<String>) -> (r: String)
    ensures
        r@ == params_render(ps.deep_view()),
{
    let ghost full = ps.deep_view();
    let mut s = String::new();
    let mut i: usize = 0;
    proof {
        assert(full.skip(0) =~= full);
    }
    while i < ps.len()
        invariant
            i <= ps.len(),
            full == ps.deep_view(),
            full.len() == ps@.len(),
            forall|j: int| 0 <= j < full.len() ==> full[j] == ps@[j]@,
            params_render(full) == s@ + params_render(full.skip(i as int)),
        decreases ps.len() - i,
    {
        proof {
            assert(full.skip(i as int)[0] == full[i as int]);
            assert(full.skip(i as int).drop_first() =~= full.skip(i as int + 1));
        }
        s.append(ps[i].as_str());
        push_char(&mut s, ' ');
        i = i + 1;
        proof {
            assert(s@ + params_render(full.skip(i as int)) =~= params_render(full));
        }
    }
    proof {
        assert(params_render(full.skip(full.len() as int)) =~= Seq::<char>::empty());
        assert(s@ =~= params_render(full));
    }
    s
}

fn render_body(body: &Vec<Object>) -> (r: String)
    ensures
        r@ == body_render(objs_view(body@)),
    decreases *body,
{
    let ghost full = objs_view(body@);
    proof {
        lemma_objs_view(body@);
        assert(full.skip(0) =~= full);
    }
    let mut s = String::new();
    let mut i: usize = 0;
    while i < body.len()
        invariant
            i <= body.len(),
            full == objs_view(body@),
            full.len() == body@.len(),
            forall|j: int| 0 <= j < full.len() ==> full[j] == obj_view(body@[j]),
            body_render(full) == s@ + body_render(full.skip(i as int)),
        decreases body.len() - i,
    {
        proof {
            assert(full.skip(i as int)[0] == full[i as int]);
            assert(full.skip(i as int).drop_first() =~= full.skip(i as int + 1));
            assert(decreases_to!(*body => body@[i as int]));
        }
        push_char(&mut s, ' ');
        let sub = render(&body[i]);
        s.append(sub.as_str());
        i = i + 1;
        proof {
            assert(s@ + body_render(full.skip(i as int)) =~= body_render(full));
        }
    }
    proof {
        assert(body_render(full.skip(full.len() as int)) =~= Seq::<char>::empty());
        assert(s@ =~= body_render(full));
    }
    s
}

fn render_items(items: &Vec<Object>) -> (r: String)
    ensures
        r@ == join_render(objs_view(items@), Seq::empty(), true),
    decreases *items,
{
    let ghost full = objs_view(items@);
    proof {
        lemma_objs_view(items@);
        assert(full.skip(0) =~= full);
    }
    let mut s = String::new();
    let mut i: usize = 0;
    while i < items.len()
        invariant
            i <= items.len(),
            full == objs_view(items@),
            full.len() == items@.len(),
            forall|j: int| 0 <= j < full.len() ==> full[j] == obj_view(items@[j]),
            join_render(full, Seq::empty(), true) == join_render(
                full.skip(i as int),
                s@,
                i == 0,
            ),
        decreases items.len() - i,
    {
        proof {
            assert(full.skip(i as int)[0] == full[i as int]);
            assert(full.skip(i as int).drop_first() =~= full.skip(i as int + 1));
            assert(decreases_to!(*items => items@[i as int]));
        }
        let ghost pre = s@;
        if i > 0 {
            push_char(&mut s, ' ');
        }
        let sub = render(&items[i]);
        s.append(sub.as_str());
        proof {
            assert(s@ =~= pre + (if i == 0 {
                Seq::<char>::empty()
            } else {
                seq![' ']
            }) + render_spec(full[i as int]));
        }
        i = i + 1;
    }
    s
}

fn duplicate_vec(v: &Vec<Object>) -> (r: Vec<Object>)
    ensures
        objs_view(r@) == objs_view(v@),
        r@.len() == v@.len(),
    decreases *v,
{
    let mut r: Vec<Object> = Vec::new();
    let mut i: usize = 0;
    while i < v.len()
        invariant
            i <= v.len(),
            r@.len() == i,
            forall|j: int| 0 <= j < i ==> obj_view(r@[j]) == obj_view(v@[j]),
        decreases v.len() - i,
    {
        assert(decreases_to!(*v => v@[i as int]));
        let e = v[i].duplicate();
        r.push(e);
        i = i + 1;
    }
    proof {
        lemma_objs_view(r@);
        lemma_objs_view(v@);
        assert(objs_view(r@) =~= objs_view(v@));
    }
    r
}

} // verus!
