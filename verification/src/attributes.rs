//! What a task's annotation says about the data it uses, and how the names
//! are read out of it.

use vstd::prelude::*;

verus! {

/// Whether `c` is white space in the sense of `char::is_whitespace`: whether
/// it has the Unicode property `White_Space`.
pub uninterp spec fn is_whitespace(c: char) -> bool;

/// `char::is_whitespace` depends on the character alone; its answer is what
/// [`is_whitespace`] names.
pub assume_specification[ char::is_whitespace ](c: char) -> (white: bool)
    ensures
        white == is_whitespace(c),
;

/// The characters of `s`, one by one.
pub fn chars_of(s: &str) -> (chars: Vec<char>)
    ensures
        chars@ == s@,
{
    let mut chars: Vec<char> = Vec::new();
    for c in it: s.chars()
        invariant
            it.seq() == s@,
            chars@ == s@.take(it.index() as int),
    {
        chars.push(c);
    }
    chars
}

/// How many characters at the front of `s` are white space.
pub open spec fn leading_whitespace(s: Seq<char>) -> nat
    decreases s.len(),
{
    if s.len() > 0 && is_whitespace(s[0]) {
        1 + leading_whitespace(s.drop_first())
    } else {
        0
    }
}

/// How many characters at the back of `s` are white space.
pub open spec fn trailing_whitespace(s: Seq<char>) -> nat
    decreases s.len(),
{
    if s.len() > 0 && is_whitespace(s.last()) {
        1 + trailing_whitespace(s.drop_last())
    } else {
        0
    }
}

/// `s` without the white space at its front and at its back.
pub open spec fn trimmed(s: Seq<char>) -> Seq<char> {
    let from = leading_whitespace(s) as int;
    let to = s.len() - trailing_whitespace(s);
    if from < to {
        s.subrange(from, to)
    } else {
        Seq::empty()
    }
}

/// The position of the first comma in `s`, or the length of `s` if it holds
/// none.
pub open spec fn first_comma(s: Seq<char>) -> nat
    decreases s.len(),
{
    if s.len() > 0 && s[0] != ',' {
        1 + first_comma(s.drop_first())
    } else {
        0
    }
}

/// The pieces of `s` between its commas. A string without a comma is one
/// piece, the empty string too; a comma at either end borders on an empty
/// piece.
pub open spec fn split_at_commas(s: Seq<char>) -> Seq<Seq<char>>
    decreases s.len(),
{
    let end = first_comma(s) as int;
    if end < s.len() {
        seq![s.subrange(0, end)] + split_at_commas(s.subrange(end + 1, s.len() as int))
    } else {
        seq![s]
    }
}

/// The names that a comma-separated list holds: its pieces, each without the
/// white space around it.
pub open spec fn listed_names(s: Seq<char>) -> Seq<Seq<char>> {
    split_at_commas(s).map_values(|piece: Seq<char>| trimmed(piece))
}

/// `k` white characters at the front and none right after them are the
/// leading white space.
pub proof fn lemma_leading_whitespace(s: Seq<char>, k: int)
    requires
        0 <= k <= s.len(),
        forall|m: int| 0 <= m < k ==> is_whitespace(#[trigger] s[m]),
        k < s.len() ==> !is_whitespace(s[k]),
    ensures
        leading_whitespace(s) == k,
    decreases k,
{
    if k > 0 {
        let rest = s.drop_first();
        assert forall|m: int| 0 <= m < k - 1 implies is_whitespace(#[trigger] rest[m]) by {
            assert(rest[m] == s[m + 1]);
        }
        lemma_leading_whitespace(rest, k - 1);
    }
}

/// `k` white characters at the back and none right before them are the
/// trailing white space.
pub proof fn lemma_trailing_whitespace(s: Seq<char>, k: int)
    requires
        0 <= k <= s.len(),
        forall|m: int| s.len() - k <= m < s.len() ==> is_whitespace(#[trigger] s[m]),
        k < s.len() ==> !is_whitespace(s[s.len() - k - 1]),
    ensures
        trailing_whitespace(s) == k,
    decreases k,
{
    if k > 0 {
        let rest = s.drop_last();
        assert forall|m: int| rest.len() - (k - 1) <= m < rest.len() implies is_whitespace(
            #[trigger] rest[m],
        ) by {
            assert(rest[m] == s[m]);
        }
        lemma_trailing_whitespace(rest, k - 1);
    }
}

/// A comma at `k` with none before it is the first comma; where there is
/// none at all, `k` is the length.
pub proof fn lemma_first_comma(s: Seq<char>, k: int)
    requires
        0 <= k <= s.len(),
        forall|m: int| 0 <= m < k ==> #[trigger] s[m] != ',',
        k < s.len() ==> s[k] == ',',
    ensures
        first_comma(s) == k,
    decreases k,
{
    if k > 0 {
        let rest = s.drop_first();
        assert forall|m: int| 0 <= m < k - 1 implies #[trigger] rest[m] != ',' by {
            assert(rest[m] == s[m + 1]);
        }
        lemma_first_comma(rest, k - 1);
    }
}

/// The part of `s` from `from` to `to`, without the white space around it.
pub fn trimmed_part(s: &str, chars: &Vec<char>, from: usize, to: usize) -> (name: String)
    requires
        chars@ == s@,
        from <= to <= chars.len(),
    ensures
        name@ == trimmed(s@.subrange(from as int, to as int)),
{
    let ghost part = s@.subrange(from as int, to as int);
    let mut begin: usize = from;
    while begin < to && chars[begin].is_whitespace()
        invariant
            chars@ == s@,
            from <= begin <= to <= chars.len(),
            part == s@.subrange(from as int, to as int),
            forall|m: int| 0 <= m < begin - from ==> is_whitespace(#[trigger] part[m]),
        decreases to - begin,
    {
        begin += 1;
    }
    let mut end: usize = to;
    while end > begin && chars[end - 1].is_whitespace()
        invariant
            chars@ == s@,
            from <= begin <= end <= to <= chars.len(),
            part == s@.subrange(from as int, to as int),
            forall|m: int| end - from <= m < part.len() ==> is_whitespace(#[trigger] part[m]),
        decreases end - begin,
    {
        end -= 1;
    }
    proof {
        if begin < to {
            assert(part[begin - from] == chars[begin as int]);
            assert(part[end - from - 1] == chars[end - 1]);
            lemma_leading_whitespace(part, begin - from);
            lemma_trailing_whitespace(part, to - end);
            assert(part.subrange(begin - from, end - from) =~= s@.subrange(
                begin as int,
                end as int,
            ));
        } else {
            lemma_leading_whitespace(part, to - from);
            assert(s@.subrange(begin as int, end as int) =~= Seq::<char>::empty());
        }
    }
    s.substring_char(begin, end).to_owned()
}

/// The names in the comma-separated list `s`, in the order of the list.
pub fn names_in_list(s: &str) -> (names: Vec<String>)
    ensures
        names.deep_view() == listed_names(s@),
{
    let chars = chars_of(s);
    let n = chars.len();
    let mut names: Vec<String> = Vec::new();
    let mut start: usize = 0;
    let mut i: usize = 0;
    proof {
        assert(s@.subrange(0, n as int) =~= s@);
        assert(names.deep_view() + listed_names(s@) =~= listed_names(s@));
    }
    while i < n
        invariant
            chars@ == s@,
            n == chars.len(),
            start <= i <= n,
            forall|m: int| start <= m < i ==> #[trigger] chars[m] != ',',
            listed_names(s@) == names.deep_view() + listed_names(
                s@.subrange(start as int, n as int),
            ),
        decreases n - i,
    {
        if chars[i] == ',' {
            let name = trimmed_part(s, &chars, start, i);
            proof {
                let rest = s@.subrange(start as int, n as int);
                assert forall|m: int| 0 <= m < i - start implies #[trigger] rest[m] != ',' by {
                    assert(rest[m] == chars[m + start]);
                }
                lemma_first_comma(rest, i - start);
                assert(rest.subrange(0, i - start) =~= s@.subrange(start as int, i as int));
                assert(rest.subrange(i - start + 1, rest.len() as int) =~= s@.subrange(
                    i + 1,
                    n as int,
                ));
                assert(listed_names(rest) =~= seq![name@] + listed_names(
                    s@.subrange(i + 1, n as int),
                ));
                assert(names.deep_view().push(name@) + listed_names(s@.subrange(i + 1, n as int))
                    =~= names.deep_view() + listed_names(rest));
            }
            let ghost before = names.deep_view();
            names.push(name);
            assert(names.deep_view() =~= before.push(name@));
            start = i + 1;
        }
        i += 1;
    }
    let name = trimmed_part(s, &chars, start, n);
    proof {
        let rest = s@.subrange(start as int, n as int);
        assert forall|m: int| 0 <= m < n - start implies #[trigger] rest[m] != ',' by {
            assert(rest[m] == chars[m + start]);
        }
        lemma_first_comma(rest, n - start);
        assert(listed_names(rest) =~= seq![name@]);
    }
    let ghost before = names.deep_view();
    names.push(name);
    assert(names.deep_view() =~= before.push(name@));
    names
}

/// Whether `name` is one of `names`.
pub fn holds_name(names: &Vec<String>, name: &String) -> (found: bool)
    ensures
        found == names.deep_view().contains(name@),
{
    let mut k: usize = 0;
    while k < names.len()
        invariant
            k <= names.len(),
            forall|m: int| 0 <= m < k ==> names.deep_view()[m] != name@,
        decreases names.len() - k,
    {
        if names[k] == *name {
            assert(names.deep_view()[k as int] == name@);
            return true;
        }
        k += 1;
    }
    false
}

/// The test that a name is none of `names`.
pub open spec fn not_among(names: Seq<Seq<char>>) -> spec_fn(Seq<char>) -> bool {
    |name: Seq<char>| !names.contains(name)
}

/// The options of the annotation of one task: the list of the names it
/// writes and the list of the names it reads, each as it was written down,
/// with commas between the names. Either may be missing.
#[derive(Debug)]
pub struct PurtelTaskAttributes {
    write: Option<String>,
    read: Option<String>,
}

impl PurtelTaskAttributes {
    /// The list given for `write`, if there is one.
    pub closed spec fn write_list(&self) -> Option<Seq<char>> {
        match self.write {
            Some(list) => Some(list@),
            None => None,
        }
    }

    /// The list given for `read`, if there is one.
    pub closed spec fn read_list(&self) -> Option<Seq<char>> {
        match self.read {
            Some(list) => Some(list@),
            None => None,
        }
    }

    /// The names the task writes: those of the `write` list, in its order.
    pub open spec fn written_names(&self) -> Seq<Seq<char>> {
        match self.write_list() {
            Some(list) => listed_names(list),
            None => Seq::empty(),
        }
    }

    /// The names the task only reads: those of the `read` list, in its order,
    /// that are not written as well.
    pub open spec fn read_names(&self) -> Seq<Seq<char>> {
        match self.read_list() {
            Some(list) => listed_names(list).filter(not_among(self.written_names())),
            None => Seq::empty(),
        }
    }

    /// The attributes with the given lists.
    pub fn new(write: Option<String>, read: Option<String>) -> (attributes: Self)
        ensures
            attributes.write_list() == write.deep_view(),
            attributes.read_list() == read.deep_view(),
    {
        Self { write, read }
    }

    /// The `write` list as it was written down.
    pub fn write(&self) -> (list: Option<&String>)
        ensures
            list.deep_view() == self.write_list(),
    {
        self.write.as_ref()
    }

    /// The `read` list as it was written down.
    pub fn read(&self) -> (list: Option<&String>)
        ensures
            list.deep_view() == self.read_list(),
    {
        self.read.as_ref()
    }

    /// The names of the `write` list, each without the white space around it.
    pub fn write_params(&self) -> (names: Vec<String>)
        ensures
            names.deep_view() == self.written_names(),
    {
        match &self.write {
            Some(list) => names_in_list(list.as_str()),
            None => {
                let names: Vec<String> = Vec::new();
                assert(names.deep_view() =~= Seq::<Seq<char>>::empty());
                names
            },
        }
    }

    /// The names of the `read` list, each without the white space around it,
    /// except those that the `write` list names too: to write includes to
    /// read.
    pub fn read_params(&self) -> (names: Vec<String>)
        ensures
            names.deep_view() == self.read_names(),
    {
        let mut names: Vec<String> = Vec::new();
        match &self.read {
            Some(list) => {
                let written = self.write_params();
                let listed = names_in_list(list.as_str());
                let ghost keep = not_among(self.written_names());
                let mut k: usize = 0;
                assert(names.deep_view() =~= listed.deep_view().take(0).filter(keep)) by {
                    reveal(Seq::filter);
                }
                while k < listed.len()
                    invariant
                        k <= listed.len(),
                        written.deep_view() == self.written_names(),
                        keep == not_among(self.written_names()),
                        names.deep_view() == listed.deep_view().take(k as int).filter(keep),
                    decreases listed.len() - k,
                {
                    let ghost before = names.deep_view();
                    let ghost seen = listed.deep_view().take(k as int);
                    let ghost now = listed.deep_view().take(k + 1);
                    assert(now.drop_last() =~= seen);
                    assert(now.last() == listed[k as int]@);
                    assert(now.filter(keep) == if keep(now.last()) {
                        seen.filter(keep).push(now.last())
                    } else {
                        seen.filter(keep)
                    }) by {
                        reveal(Seq::filter);
                    }
                    if !holds_name(&written, &listed[k]) {
                        let name = listed[k].clone();
                        names.push(name);
                        assert(names.deep_view() =~= before.push(listed[k as int]@));
                    }
                    k += 1;
                }
                assert(listed.deep_view().take(k as int) =~= listed.deep_view());
            },
            None => {
                assert(names.deep_view() =~= Seq::<Seq<char>>::empty());
            },
        }
        names
    }
}

/// To write includes to read: a name counts as read only if the `read` list
/// holds it and the `write` list does not. So no name is both among the
/// written and among the read names of a task.
pub proof fn law_write_subsumes_read(attributes: PurtelTaskAttributes, name: Seq<char>)
    ensures
        attributes.read_names().contains(name) <==> attributes.read_list() is Some && listed_names(
            attributes.read_list()->0,
        ).contains(name) && !attributes.written_names().contains(name),
{
    if attributes.read_list() is Some {
        let listed = listed_names(attributes.read_list()->0);
        let keep = not_among(attributes.written_names());
        if listed.filter(keep).contains(name) {
            let k = choose|k: int| 0 <= k < listed.filter(keep).len() && listed.filter(keep)[k] == name;
            listed.lemma_filter_pred(keep, k);
            listed.lemma_filter_contains_rev(keep, name);
        }
        if listed.contains(name) && keep(name) {
            let k = choose|k: int| 0 <= k < listed.len() && listed[k] == name;
            listed.lemma_filter_contains(keep, k);
        }
    }
}

} // verus!
