//! Building lines and lists of lines.

use vstd::prelude::*;

use super::proto::texts;

verus! {

pub fn cat2(a: &str, b: &str) -> (r: String)
    ensures
        r@ == a@ + b@,
{
    let mut r: String = a.to_owned();
    r.append(b);
    r
}

pub fn cat3(a: &str, b: &str, c: &str) -> (r: String)
    ensures
        r@ == a@ + b@ + c@,
{
    let mut r: String = cat2(a, b);
    r.append(c);
    r
}

pub fn cat4(a: &str, b: &str, c: &str, d: &str) -> (r: String)
    ensures
        r@ == a@ + b@ + c@ + d@,
{
    let mut r: String = cat3(a, b, c);
    r.append(d);
    r
}

pub fn cat5(a: &str, b: &str, c: &str, d: &str, e: &str) -> (r: String)
    ensures
        r@ == a@ + b@ + c@ + d@ + e@,
{
    let mut r: String = cat4(a, b, c, d);
    r.append(e);
    r
}

pub fn cat6(a: &str, b: &str, c: &str, d: &str, e: &str, f: &str) -> (r: String)
    ensures
        r@ == a@ + b@ + c@ + d@ + e@ + f@,
{
    let mut r: String = cat5(a, b, c, d, e);
    r.append(f);
    r
}

pub fn cat7(a: &str, b: &str, c: &str, d: &str, e: &str, f: &str, g: &str) -> (r: String)
    ensures
        r@ == a@ + b@ + c@ + d@ + e@ + f@ + g@,
{
    let mut r: String = cat6(a, b, c, d, e, f);
    r.append(g);
    r
}

/// No line.
pub fn no_lines() -> (r: Vec<String>)
    ensures
        texts(r@) == Seq::<Seq<char>>::empty(),
{
    let r: Vec<String> = Vec::new();
    assert(texts(r@) =~= Seq::<Seq<char>>::empty());
    r
}

/// One line.
pub fn one_line(line: String) -> (r: Vec<String>)
    ensures
        texts(r@) == seq![line@],
{
    let mut r: Vec<String> = Vec::new();
    r.push(line);
    assert(texts(r@) =~= seq![line@]);
    r
}

/// One line more.
pub fn add_line(lines: &mut Vec<String>, line: String)
    ensures
        texts(final(lines)@) == texts(old(lines)@).push(line@),
{
    lines.push(line);
    assert(texts(lines@) =~= texts(old(lines)@).push(line@));
}

/// More lines.
pub fn add_lines(lines: &mut Vec<String>, more: Vec<String>)
    ensures
        texts(final(lines)@) == texts(old(lines)@) + texts(more@),
{
    let mut i: usize = 0;
    assert(texts(more@).take(0) =~= Seq::<Seq<char>>::empty());
    assert(texts(old(lines)@) + Seq::<Seq<char>>::empty() =~= texts(old(lines)@));
    while i < more.len()
        invariant
            i <= more@.len(),
            texts(lines@) == texts(old(lines)@) + texts(more@).take(i as int),
        decreases more@.len() - i,
    {
        add_line(lines, more[i].clone());
        assert(texts(more@).take(i + 1) =~= texts(more@).take(i as int).push(more@[i as int]@));
        assert(texts(lines@) =~= texts(old(lines)@) + texts(more@).take(i + 1));
        i = i + 1;
    }
    assert(texts(more@).take(i as int) =~= texts(more@));
}

} // verus!
