use vstd::prelude::*;
use vstd::string::StringExecFns;
use vstd::string::StrSliceExecFns;
use crate::attrs::{AttrValue, Attrib, attrs_view, find_attr, lookup, first_named, value_view};

verus! {

/// The separators between class names.
pub open spec fn is_ws(c: char) -> bool {
    c == ' ' || c == '\t' || c == '\n' || c == '\r' || c == '\x0C'
}

/// Scanning state after the characters of `s`: the finished words and the
/// word being read.
pub open spec fn scan_words(s: Seq<char>) -> (Seq<Seq<char>>, Seq<char>)
    decreases s.len(),
{
    if s.len() == 0 {
        (Seq::empty(), Seq::empty())
    } else {
        let (done, cur) = scan_words(s.drop_last());
        if is_ws(s.last()) {
            if cur.len() > 0 {
                (done.push(cur), Seq::empty())
            } else {
                (done, Seq::empty())
            }
        } else {
            (done, cur.push(s.last()))
        }
    }
}

/// The whitespace-separated, non-empty words of `s`, in order.
pub open spec fn tokens(s: Seq<char>) -> Seq<Seq<char>> {
    let (done, cur) = scan_words(s);
    if cur.len() > 0 {
        done.push(cur)
    } else {
        done
    }
}

/// `l` without repeats, each word kept where it first occurs.
pub open spec fn dedup(l: Seq<Seq<char>>) -> Seq<Seq<char>>
    decreases l.len(),
{
    if l.len() == 0 {
        l
    } else {
        let d = dedup(l.drop_last());
        if d.contains(l.last()) {
            d
        } else {
            d.push(l.last())
        }
    }
}

/// The words of `l` joined by single spaces.
pub open spec fn join(l: Seq<Seq<char>>) -> Seq<char>
    decreases l.len(),
{
    if l.len() == 0 {
        Seq::empty()
    } else if l.len() == 1 {
        l[0]
    } else {
        join(l.drop_last()) + seq![' '] + l.last()
    }
}

/// `v` with each word of `ts` that it lacks appended after a space.
pub open spec fn add_words(v: Seq<char>, ts: Seq<Seq<char>>) -> Seq<char>
    decreases ts.len(),
{
    if ts.len() == 0 {
        v
    } else {
        let w = add_words(v, ts.drop_last());
        if tokens(w).contains(ts.last()) {
            w
        } else {
            w + seq![' '] + ts.last()
        }
    }
}

pub open spec fn strs_view(v: Seq<String>) -> Seq<Seq<char>> {
    v.map_values(|s: String| s@)
}

/// The class names of an attribute list: the words of its first `class`
/// attribute when that holds a string.
pub open spec fn class_words(l: Seq<(Seq<char>, AttrValue)>) -> Seq<Seq<char>> {
    match lookup(l, "class"@) {
        Some(AttrValue::Str(t)) => tokens(t@),
        _ => Seq::empty(),
    }
}

/// The words of `l` that are not in `ts`, in order.
pub open spec fn drop_words(l: Seq<Seq<char>>, ts: Seq<Seq<char>>) -> Seq<Seq<char>>
    decreases l.len(),
{
    if l.len() == 0 {
        l
    } else {
        let d = drop_words(l.drop_last(), ts);
        if ts.contains(l.last()) {
            d
        } else {
            d.push(l.last())
        }
    }
}

/// `new` is `old` with only the attribute at `i` changed, to name `name` and
/// a value holding `v`.
pub open spec fn changed_at(old: Seq<Attrib>, new: Seq<Attrib>, i: int, name: Seq<char>, v: (bool, Seq<char>)) -> bool {
    &&& new.len() == old.len()
    &&& forall|j: int| 0 <= j < old.len() && j != i ==> #[trigger] new[j] == old[j]
    &&& new[i].name@ == name
    &&& value_view(new[i].value) == v
}

/// What adding the class names of `class` does to an attribute list: each
/// missing name is appended to a string-valued `class` attribute; without a
/// `class` attribute, one holding the distinct names is added at the end.
pub open spec fn classes_added(old: Seq<Attrib>, new: Seq<Attrib>, class: Seq<char>) -> bool {
    let l = attrs_view(old);
    let ts = tokens(class);
    if ts.len() == 0 {
        new == old
    } else {
        match first_named(l, "class"@) {
            Some(i) => match l[i].1 {
                AttrValue::Str(v) => changed_at(old, new, i, "class"@, (false, add_words(v@, ts))),
                AttrValue::Json(_) => new == old,
            },
            None => {
                &&& new.len() == old.len() + 1
                &&& new.subrange(0, old.len() as int) == old
                &&& new.last().name@ == "class"@
                &&& value_view(new.last().value) == (false, join(dedup(ts)))
            },
        }
    }
}

/// The class names left when those of `class` are removed.
pub open spec fn remaining_classes(value: AttrValue, class: Seq<char>) -> Seq<Seq<char>> {
    match value {
        AttrValue::Str(v) => drop_words(dedup(tokens(v@)), tokens(class)),
        AttrValue::Json(_) => Seq::empty(),
    }
}

/// What removing the class names of `class` does to an attribute list: the
/// first `class` attribute gets, as a string, the remaining distinct names
/// joined by spaces.
pub open spec fn classes_removed(old: Seq<Attrib>, new: Seq<Attrib>, class: Seq<char>) -> bool {
    let l = attrs_view(old);
    if tokens(class).len() == 0 {
        new == old
    } else {
        match first_named(l, "class"@) {
            Some(i) => changed_at(old, new, i, "class"@, (false, join(remaining_classes(l[i].1, class)))),
            None => new == old,
        }
    }
}

/// Splits `s` into its whitespace-separated words.
pub fn split_tokens(s: &str) -> (r: Vec<String>)
    ensures
        strs_view(r@) == tokens(s@),
{
    let n = s.unicode_len();
    let mut words: Vec<String> = Vec::new();
    let mut start: usize = 0;
    let mut i: usize = 0;
    proof {
        assert(s@.subrange(0, 0) =~= Seq::<char>::empty());
    }
    while i < n
        invariant
            n == s@.len(),
            0 <= start <= i <= n,
            scan_words(s@.subrange(0, i as int)) == (strs_view(words@), s@.subrange(start as int, i as int)),
        decreases n - i,
    {
        let c = s.get_char(i);
        let ghost pre = s@.subrange(0, i as int);
        proof {
            assert(s@.subrange(0, i + 1).drop_last() =~= pre);
            assert(s@.subrange(0, i + 1).last() == c);
        }
        if c == ' ' || c == '\t' || c == '\n' || c == '\r' || c == '\x0C' {
            if start < i {
                let ghost before = words@;
                let w = String::from_str(s.substring_char(start, i));
                words.push(w);
                proof {
                    assert(strs_view(words@) =~= strs_view(before).push(s@.subrange(start as int, i as int)));
                }
            }
            start = i + 1;
            proof {
                assert(s@.subrange(start as int, i + 1) =~= Seq::<char>::empty());
            }
        } else {
            proof {
                assert(s@.subrange(start as int, i + 1) =~= s@.subrange(start as int, i as int).push(c));
            }
        }
        i = i + 1;
    }
    if start < n {
        let ghost before = words@;
        let w = String::from_str(s.substring_char(start, n));
        words.push(w);
        proof {
            assert(strs_view(words@) =~= strs_view(before).push(s@.subrange(start as int, n as int)));
        }
    }
    proof {
        assert(s@.subrange(0, n as int) =~= s@);
    }
    words
}

/// Whether `t` is one of `words`.
pub fn contains_word(words: &Vec<String>, t: &str) -> (r: bool)
    ensures
        r == strs_view(words@).contains(t@),
{
    let key = String::from_str(t);
    let mut i: usize = 0;
    while i < words.len()
        invariant
            0 <= i <= words@.len(),
            key@ == t@,
            forall|j: int| 0 <= j < i ==> (#[trigger] strs_view(words@)[j]) != t@,
        decreases words@.len() - i,
    {
        if words[i] == key {
            proof {
                assert(strs_view(words@)[i as int] == t@);
            }
            return true;
        }
        i = i + 1;
    }
    false
}

/// Whether the class attribute's value, read as a string, names `target`.
pub fn contains_class(value: &AttrValue, target: &str) -> (r: bool)
    ensures
        r == (match *value {
            AttrValue::Str(t) => tokens(t@).contains(target@),
            AttrValue::Json(_) => false,
        }),
{
    match value {
        AttrValue::Str(s) => {
            let words = split_tokens(s.as_str());
            contains_word(&words, target)
        },
        AttrValue::Json(_) => false,
    }
}

/// `words` without repeats, in order of first occurrence.
pub fn dedup_words(words: &Vec<String>) -> (r: Vec<String>)
    ensures
        strs_view(r@) == dedup(strs_view(words@)),
{
    let mut out: Vec<String> = Vec::new();
    let mut i: usize = 0;
    proof {
        assert(strs_view(words@).subrange(0, 0) =~= Seq::<Seq<char>>::empty());
    }
    while i < words.len()
        invariant
            0 <= i <= words@.len(),
            strs_view(out@) == dedup(strs_view(words@).subrange(0, i as int)),
        decreases words@.len() - i,
    {
        let ghost pre = strs_view(words@).subrange(0, i as int);
        proof {
            assert(strs_view(words@).subrange(0, i + 1).drop_last() =~= pre);
        }
        if !contains_word(&out, words[i].as_str()) {
            let ghost before = out@;
            out.push(words[i].clone());
            proof {
                assert(strs_view(out@) =~= strs_view(before).push(words@[i as int]@));
            }
        }
        i = i + 1;
    }
    proof {
        assert(strs_view(words@).subrange(0, words@.len() as int) =~= strs_view(words@));
    }
    out
}

/// The words of `words` that are not in `ts`, in order.
pub fn drop_listed(words: &Vec<String>, ts: &Vec<String>) -> (r: Vec<String>)
    ensures
        strs_view(r@) == drop_words(strs_view(words@), strs_view(ts@)),
{
    let mut out: Vec<String> = Vec::new();
    let mut i: usize = 0;
    proof {
        assert(strs_view(words@).subrange(0, 0) =~= Seq::<Seq<char>>::empty());
    }
    while i < words.len()
        invariant
            0 <= i <= words@.len(),
            strs_view(out@) == drop_words(strs_view(words@).subrange(0, i as int), strs_view(ts@)),
        decreases words@.len() - i,
    {
        proof {
            assert(strs_view(words@).subrange(0, i + 1).drop_last() =~= strs_view(words@).subrange(0, i as int));
        }
        if !contains_word(ts, words[i].as_str()) {
            let ghost before = out@;
            out.push(words[i].clone());
            proof {
                assert(strs_view(out@) =~= strs_view(before).push(words@[i as int]@));
            }
        }
        i = i + 1;
    }
    proof {
        assert(strs_view(words@).subrange(0, words@.len() as int) =~= strs_view(words@));
    }
    out
}

/// Whether the first `class` attribute names `class`.
pub fn has_class(attrs: &Vec<Attrib>, class: &str) -> (r: bool)
    ensures
        r == class_words(attrs_view(attrs@)).contains(class@),
{
    match find_attr(attrs, "class") {
        Some(i) => contains_class(&attrs[i].value, class),
        None => false,
    }
}

/// Adds the whitespace-separated class names of `class`.
/// `v` with each word of `ts` it lacks appended after a space.
fn append_missing_words(v0: String, ts: &Vec<String>) -> (r: String)
    ensures
        r@ == add_words(v0@, strs_view(ts@)),
{
    let ghost start = v0@;
    let mut v = v0;
    let mut k: usize = 0;
    proof {
        assert(strs_view(ts@).subrange(0, 0) =~= Seq::<Seq<char>>::empty());
    }
    while k < ts.len()
        invariant
            0 <= k <= ts@.len(),
            v@ == add_words(start, strs_view(ts@).subrange(0, k as int)),
        decreases ts@.len() - k,
    {
        proof {
            assert(strs_view(ts@).subrange(0, k + 1).drop_last() =~= strs_view(ts@).subrange(0, k as int));
            reveal_strlit(" ");
        }
        let probe = AttrValue::Str(v);
        let present = contains_class(&probe, ts[k].as_str());
        v = match probe {
            AttrValue::Str(t) => t,
            AttrValue::Json(t) => t,
        };
        if !present {
            v.append(" ");
            v.append(ts[k].as_str());
        }
        proof {
            assert(v@ =~= add_words(start, strs_view(ts@).subrange(0, k + 1)));
        }
        k = k + 1;
    }
    proof {
        assert(strs_view(ts@).subrange(0, ts@.len() as int) =~= strs_view(ts@));
    }
    v
}

pub fn add_class(attrs: &mut Vec<Attrib>, class: &str)
    ensures
        classes_added(old(attrs)@, final(attrs)@, class@),
{
    let ts = split_tokens(class);
    if ts.len() == 0 {
        return;
    }
    match find_attr(attrs, "class") {
        Some(i) => {
            let cur = attrs[i].value.copy();
            match cur {
                AttrValue::Str(v0) => {
                    let v = append_missing_words(v0, &ts);
                    attrs[i].value = AttrValue::Str(v);
                },
                AttrValue::Json(_) => {},
            }
        },
        None => {
            let d = dedup_words(&ts);
            let joined = join_words(&d);
            attrs.push(Attrib { name: String::from_str("class"), value: AttrValue::Str(joined) });
            proof {
                assert(attrs@.subrange(0, old(attrs)@.len() as int) =~= old(attrs)@);
            }
        },
    }
}

/// Removes the whitespace-separated class names of `class`.
pub fn remove_class(attrs: &mut Vec<Attrib>, class: &str)
    ensures
        classes_removed(old(attrs)@, final(attrs)@, class@),
{
    let ts = split_tokens(class);
    if ts.len() == 0 {
        return;
    }
    match find_attr(attrs, "class") {
        Some(i) => {
            let current: Vec<String> = match &attrs[i].value {
                AttrValue::Str(s) => dedup_words(&split_tokens(s.as_str())),
                AttrValue::Json(_) => Vec::new(),
            };
            let kept = drop_listed(&current, &ts);
            let joined = join_words(&kept);
            attrs[i].value = AttrValue::Str(joined);
        },
        None => {},
    }
}

/// `words` joined by single spaces.
pub fn join_words(words: &Vec<String>) -> (r: String)
    ensures
        r@ == join(strs_view(words@)),
{
    let mut out = String::new();
    if words.len() == 0 {
        proof {
            assert(out@ =~= join(strs_view(words@)));
        }
        return out;
    }
    out.append(words[0].as_str());
    let mut i: usize = 1;
    proof {
        assert(strs_view(words@).subrange(0, 1) =~= seq![words@[0]@]);
    }
    while i < words.len()
        invariant
            1 <= i <= words@.len(),
            out@ == join(strs_view(words@).subrange(0, i as int)),
        decreases words@.len() - i,
    {
        proof {
            reveal_strlit(" ");
            assert(strs_view(words@).subrange(0, i + 1).drop_last() =~= strs_view(words@).subrange(0, i as int));
        }
        out.append(" ");
        out.append(words[i].as_str());
        proof {
            assert(out@ =~= join(strs_view(words@).subrange(0, i + 1)));
        }
        i = i + 1;
    }
    proof {
        assert(strs_view(words@).subrange(0, words@.len() as int) =~= strs_view(words@));
    }
    out
}

} // verus!
