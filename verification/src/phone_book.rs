//! An append-only, in-memory phone directory.
//!
//! Each record carries a name, a number in the fixed `DDD-DDD-DDDD` format,
//! and a listing flag. Names are unique across the book; a number may be
//! listed at most once but unlisted any number of times.

use vstd::prelude::*;

use crate::text::str_starts_with;

verus! {

/// The mathematical model of one directory record.
pub ghost struct EntryModel {
    pub name: Seq<char>,
    pub number: Seq<char>,
    pub listed: bool,
}

/// A single phone book entry.
#[derive(Debug, Clone)]
pub struct PhoneEntry {
    pub name: String,
    pub number: String,
    pub is_listed: bool,
}

impl View for PhoneEntry {
    type V = EntryModel;

    open spec fn view(&self) -> EntryModel {
        EntryModel { name: self.name@, number: self.number@, listed: self.is_listed }
    }
}

/// PhoneBook holds name/number pairs and whether each is listed, in
/// insertion order.
#[derive(Debug)]
pub struct PhoneBook {
    pub entries: Vec<PhoneEntry>,
}

impl View for PhoneBook {
    type V = Seq<EntryModel>;

    open spec fn view(&self) -> Seq<EntryModel> {
        self.entries@.map_values(|e: PhoneEntry| e@)
    }
}

/// An ASCII decimal digit.
pub open spec fn is_digit_char(c: char) -> bool {
    48 <= c as u32 <= 57
}

/// A phone number of the shape `DDD-DDD-DDDD`: twelve characters, hyphens
/// at positions 3 and 7, ASCII digits everywhere else.
pub open spec fn valid_number_seq(s: Seq<char>) -> bool {
    &&& s.len() == 12
    &&& s[3] == '-'
    &&& s[7] == '-'
    &&& forall|i: int| 0 <= i < 12 && i != 3 && i != 7 ==> is_digit_char(#[trigger] s[i])
}

/// Some entry already carries this name.
pub open spec fn has_name(s: Seq<EntryModel>, name: Seq<char>) -> bool {
    exists|i: int| 0 <= i < s.len() && (#[trigger] s[i]).name == name
}

/// Some listed entry already carries this number.
pub open spec fn has_listed_number(s: Seq<EntryModel>, number: Seq<char>) -> bool {
    exists|i: int| 0 <= i < s.len() && (#[trigger] s[i]).number == number && s[i].listed
}

/// The insertion rules: a fresh name, a well-formed number, and, for a
/// listed entry, a number not already listed.
pub open spec fn can_add(
    s: Seq<EntryModel>,
    name: Seq<char>,
    number: Seq<char>,
    listed: bool,
) -> bool {
    &&& !has_name(s, name)
    &&& valid_number_seq(number)
    &&& (listed ==> !has_listed_number(s, number))
}

/// The number of the first listed entry with this name, if any.
pub open spec fn lookup_model(s: Seq<EntryModel>, name: Seq<char>) -> Option<Seq<char>>
    decreases s.len(),
{
    if s.len() == 0 {
        None
    } else if s[0].name == name && s[0].listed {
        Some(s[0].number)
    } else {
        lookup_model(s.drop_first(), name)
    }
}

/// The name of the first listed entry with this number, if any.
pub open spec fn lookup_by_num_model(s: Seq<EntryModel>, number: Seq<char>) -> Option<Seq<char>>
    decreases s.len(),
{
    if s.len() == 0 {
        None
    } else if s[0].number == number && s[0].listed {
        Some(s[0].name)
    } else {
        lookup_by_num_model(s.drop_first(), number)
    }
}

/// The names of all entries, listed or not, whose number starts with the
/// given prefix, in insertion order.
pub open spec fn names_by_ac_model(s: Seq<EntryModel>, ac: Seq<char>) -> Seq<Seq<char>>
    decreases s.len(),
{
    if s.len() == 0 {
        Seq::empty()
    } else {
        let rest = names_by_ac_model(s.drop_last(), ac);
        if ac.is_prefix_of(s.last().number) {
            rest.push(s.last().name)
        } else {
            rest
        }
    }
}

/// A name lookup succeeds exactly when some listed entry carries the
/// name, and then returns a number that such an entry carries.
pub proof fn lemma_lookup_model_some(s: Seq<EntryModel>, name: Seq<char>)
    ensures
        lookup_model(s, name) is Some <==> exists|i: int|
            0 <= i < s.len() && (#[trigger] s[i]).name == name && s[i].listed,
        lookup_model(s, name) matches Some(num) ==> exists|i: int|
            0 <= i < s.len() && (#[trigger] s[i]).name == name && s[i].listed && s[i].number
                == num,
    decreases s.len(),
{
    if s.len() == 0 {
    } else if s[0].name == name && s[0].listed {
    } else {
        lemma_lookup_model_some(s.drop_first(), name);
        if lookup_model(s, name) is Some {
            let i = choose|i: int|
                0 <= i < s.drop_first().len() && (#[trigger] s.drop_first()[i]).name == name
                    && s.drop_first()[i].listed;
            assert(s[i + 1].name == name && s[i + 1].listed);
            let num = lookup_model(s, name).unwrap();
            let j = choose|j: int|
                0 <= j < s.drop_first().len() && (#[trigger] s.drop_first()[j]).name == name
                    && s.drop_first()[j].listed && s.drop_first()[j].number == num;
            assert(s[j + 1].name == name && s[j + 1].listed && s[j + 1].number == num);
        } else {
            if exists|i: int| 0 <= i < s.len() && (#[trigger] s[i]).name == name && s[i].listed {
                let i = choose|i: int|
                    0 <= i < s.len() && (#[trigger] s[i]).name == name && s[i].listed;
                assert(s.drop_first()[i - 1].name == name && s.drop_first()[i - 1].listed);
            }
        }
    }
}

/// A number lookup succeeds exactly when some listed entry carries the
/// number, and then returns a name that such an entry carries.
pub proof fn lemma_lookup_by_num_model_some(s: Seq<EntryModel>, number: Seq<char>)
    ensures
        lookup_by_num_model(s, number) is Some <==> has_listed_number(s, number),
        lookup_by_num_model(s, number) matches Some(name) ==> exists|i: int|
            0 <= i < s.len() && (#[trigger] s[i]).number == number && s[i].listed && s[i].name
                == name,
    decreases s.len(),
{
    if s.len() == 0 {
    } else if s[0].number == number && s[0].listed {
    } else {
        lemma_lookup_by_num_model_some(s.drop_first(), number);
        if lookup_by_num_model(s, number) is Some {
            let i = choose|i: int|
                0 <= i < s.drop_first().len() && (#[trigger] s.drop_first()[i]).number == number
                    && s.drop_first()[i].listed;
            assert(s[i + 1].number == number && s[i + 1].listed);
            let name = lookup_by_num_model(s, number).unwrap();
            let j = choose|j: int|
                0 <= j < s.drop_first().len() && (#[trigger] s.drop_first()[j]).number == number
                    && s.drop_first()[j].listed && s.drop_first()[j].name == name;
            assert(s[j + 1].number == number && s[j + 1].listed && s[j + 1].name == name);
        } else {
            if has_listed_number(s, number) {
                let i = choose|i: int|
                    0 <= i < s.len() && (#[trigger] s[i]).number == number && s[i].listed;
                assert(s.drop_first()[i - 1].number == number && s.drop_first()[i - 1].listed);
            }
        }
    }
}

/// Holds of an entry whose number starts with the given prefix.
pub open spec fn has_prefix_pred(ac: Seq<char>) -> spec_fn(EntryModel) -> bool {
    |e: EntryModel| ac.is_prefix_of(e.number)
}

/// Projects an entry to its name.
pub open spec fn entry_name_fn() -> spec_fn(EntryModel) -> Seq<char> {
    |e: EntryModel| e.name
}

/// The area-code filter returns exactly the names of the entries whose
/// number starts with the prefix, keeping their order: it is the filter
/// of the book by that prefix, mapped to names.
pub proof fn lemma_names_by_ac_model_is_filter(s: Seq<EntryModel>, ac: Seq<char>)
    ensures
        names_by_ac_model(s, ac) == s.filter(has_prefix_pred(ac)).map_values(entry_name_fn()),
    decreases s.len(),
{
    let pred = has_prefix_pred(ac);
    let to_name = entry_name_fn();
    reveal_with_fuel(Seq::filter, 2);
    if s.len() == 0 {
        assert(names_by_ac_model(s, ac) =~= s.filter(pred).map_values(to_name));
    } else {
        lemma_names_by_ac_model_is_filter(s.drop_last(), ac);
        if pred(s.last()) {
            assert(s.filter(pred).map_values(to_name) =~= s.drop_last().filter(pred).map_values(
                to_name,
            ).push(s.last().name));
        } else {
            assert(s.filter(pred) == s.drop_last().filter(pred));
        }
    }
}

/// The book's invariants: unique names, well-formed numbers, and at most
/// one listed entry per number.
pub open spec fn entries_wf(s: Seq<EntryModel>) -> bool {
    &&& forall|i: int, j: int|
        0 <= i < j < s.len() ==> (#[trigger] s[i]).name != (#[trigger] s[j]).name
    &&& forall|i: int| 0 <= i < s.len() ==> valid_number_seq((#[trigger] s[i]).number)
    &&& forall|i: int, j: int|
        0 <= i < j < s.len() && (#[trigger] s[i]).listed && (#[trigger] s[j]).listed ==> s[i].number
            != s[j].number
}

impl PhoneBook {
    /// The invariants of the book, checked at insertion and preserved ever
    /// after.
    pub open spec fn wf(&self) -> bool {
        entries_wf(self@)
    }

    /// Creates an empty PhoneBook.
    pub fn new() -> (r: PhoneBook)
        ensures
            r@ == Seq::<EntryModel>::empty(),
            r.wf(),
    {
        let r = PhoneBook { entries: Vec::new() };
        proof {
            assert(r@ =~= Seq::<EntryModel>::empty());
        }
        r
    }

    /// Whether some entry already uses `name`.
    fn contains_name(&self, name: &String) -> (r: bool)
        ensures
            r == has_name(self@, name@),
    {
        let n: usize = self.entries.len();
        let mut i: usize = 0;
        while i < n
            invariant
                0 <= i <= n,
                n == self@.len(),
                self@ == self.entries@.map_values(|e: PhoneEntry| e@),
                forall|j: int| 0 <= j < i ==> (#[trigger] self@[j]).name != name@,
            decreases n - i,
        {
            if self.entries[i].name == *name {
                proof {
                    assert((self@[i as int]).name == name@);
                }
                return true;
            }
            i = i + 1;
        }
        false
    }

    /// Whether some listed entry already uses `number`.
    fn contains_listed_number(&self, number: &String) -> (r: bool)
        ensures
            r == has_listed_number(self@, number@),
    {
        let n: usize = self.entries.len();
        let mut i: usize = 0;
        while i < n
            invariant
                0 <= i <= n,
                n == self@.len(),
                self@ == self.entries@.map_values(|e: PhoneEntry| e@),
                forall|j: int|
                    0 <= j < i ==> !((#[trigger] self@[j]).number == number@ && self@[j].listed),
            decreases n - i,
        {
            if self.entries[i].is_listed && self.entries[i].number == *number {
                proof {
                    assert((self@[i as int]).number == number@ && self@[i as int].listed);
                }
                return true;
            }
            i = i + 1;
        }
        false
    }

    /// Whether `num` matches the fixed `DDD-DDD-DDDD` pattern.
    fn valid_number(num: &str) -> (r: bool)
        ensures
            r == valid_number_seq(num@),
    {
        let len: usize = num.unicode_len();
        if len != 12 {
            return false;
        }
        let mut i: usize = 0;
        while i < 12
            invariant
                0 <= i <= 12,
                num@.len() == 12,
                i > 3 ==> num@[3] == '-',
                i > 7 ==> num@[7] == '-',
                forall|j: int| 0 <= j < i && j != 3 && j != 7 ==> is_digit_char(#[trigger] num@[j]),
            decreases 12 - i,
        {
            let c: char = num.get_char(i);
            if i == 3 || i == 7 {
                if c != '-' {
                    return false;
                }
            } else {
                let u: u32 = c as u32;
                if u < 48 || u > 57 {
                    return false;
                }
            }
            i = i + 1;
        }
        true
    }

    /// Attempts to add a new entry, atomically: on any rule violation the
    /// book is unchanged and the call returns false.
    pub fn add(&mut self, name: String, number: String, is_listed: bool) -> (r: bool)
        ensures
            r == can_add(old(self)@, name@, number@, is_listed),
            r ==> final(self)@ == old(self)@.push(
                EntryModel { name: name@, number: number@, listed: is_listed },
            ),
            !r ==> final(self)@ == old(self)@,
            old(self).wf() ==> final(self).wf(),
    {
        if self.contains_name(&name) {
            return false;
        }
        if !Self::valid_number(number.as_str()) {
            return false;
        }
        if is_listed && self.contains_listed_number(&number) {
            return false;
        }
        let ghost prev = self@;
        let ghost m = EntryModel { name: name@, number: number@, listed: is_listed };
        self.entries.push(PhoneEntry { name, number, is_listed });
        proof {
            assert(self@ =~= prev.push(m));
            if entries_wf(prev) {
                let t = prev.push(m);
                assert forall|i: int, j: int| 0 <= i < j < t.len() implies (#[trigger] t[i]).name
                    != (#[trigger] t[j]).name by {
                    if j == t.len() - 1 {
                        assert(!has_name(prev, m.name));
                        assert(prev[i].name != m.name);
                    }
                }
                assert forall|i: int, j: int|
                    0 <= i < j < t.len() && (#[trigger] t[i]).listed
                        && (#[trigger] t[j]).listed implies t[i].number != t[j].number by {
                    if j == t.len() - 1 {
                        assert(!has_listed_number(prev, m.number));
                        assert(!(prev[i].number == m.number && prev[i].listed));
                    }
                }
                assert(entries_wf(t));
            }
        }
        true
    }

    /// Looks up `name` and returns the number only if the entry is listed.
    pub fn lookup(&self, name: &str) -> (r: Option<String>)
        ensures
            r matches Some(num) ==> lookup_model(self@, name@) == Some(num@),
            r is None ==> lookup_model(self@, name@) is None,
            r is Some <==> exists|i: int|
                0 <= i < self@.len() && (#[trigger] self@[i]).name == name@ && self@[i].listed,
    {
        proof {
            lemma_lookup_model_some(self@, name@);
        }
        let wanted: String = name.to_owned();
        let n: usize = self.entries.len();
        let mut i: usize = 0;
        proof {
            assert(self@.skip(0) =~= self@);
        }
        while i < n
            invariant
                0 <= i <= n,
                n == self@.len(),
                wanted@ == name@,
                self@ == self.entries@.map_values(|e: PhoneEntry| e@),
                lookup_model(self@, name@) == lookup_model(self@.skip(i as int), name@),
            decreases n - i,
        {
            proof {
                assert(self@.skip(i as int)[0] == self@[i as int]);
                assert(self@.skip(i as int).drop_first() =~= self@.skip(i as int + 1));
            }
            if self.entries[i].is_listed && self.entries[i].name == wanted {
                proof {
                    lemma_lookup_model_some(self@, name@);
                }
                return Some(self.entries[i].number.clone());
            }
            i = i + 1;
        }
        proof {
            assert(self@.skip(n as int).len() == 0);
        }
        None
    }

    /// Looks up `num` and returns the associated name only if the entry is
    /// listed.
    pub fn lookup_by_num(&self, num: &str) -> (r: Option<String>)
        ensures
            r matches Some(name) ==> lookup_by_num_model(self@, num@) == Some(name@),
            r is None ==> lookup_by_num_model(self@, num@) is None,
            r is Some <==> has_listed_number(self@, num@),
    {
        proof {
            lemma_lookup_by_num_model_some(self@, num@);
        }
        let wanted: String = num.to_owned();
        let n: usize = self.entries.len();
        let mut i: usize = 0;
        proof {
            assert(self@.skip(0) =~= self@);
        }
        while i < n
            invariant
                0 <= i <= n,
                n == self@.len(),
                wanted@ == num@,
                self@ == self.entries@.map_values(|e: PhoneEntry| e@),
                lookup_by_num_model(self@, num@) == lookup_by_num_model(
                    self@.skip(i as int),
                    num@,
                ),
            decreases n - i,
        {
            proof {
                assert(self@.skip(i as int)[0] == self@[i as int]);
                assert(self@.skip(i as int).drop_first() =~= self@.skip(i as int + 1));
            }
            if self.entries[i].is_listed && self.entries[i].number == wanted {
                proof {
                    lemma_lookup_by_num_model_some(self@, num@);
                }
                return Some(self.entries[i].name.clone());
            }
            i = i + 1;
        }
        proof {
            assert(self@.skip(n as int).len() == 0);
        }
        None
    }

    /// Returns the names of all entries, listed and unlisted, whose number
    /// begins with `areacode`, in insertion order.
    pub fn names_by_ac(&self, areacode: &str) -> (r: Vec<String>)
        ensures
            r@.map_values(|s: String| s@) == names_by_ac_model(self@, areacode@),
    {
        let n: usize = self.entries.len();
        let mut out: Vec<String> = Vec::new();
        let mut i: usize = 0;
        proof {
            assert(out@.map_values(|s: String| s@) =~= names_by_ac_model(
                self@.take(0),
                areacode@,
            ));
        }
        while i < n
            invariant
                0 <= i <= n,
                n == self@.len(),
                self@ == self.entries@.map_values(|e: PhoneEntry| e@),
                out@.map_values(|s: String| s@) == names_by_ac_model(
                    self@.take(i as int),
                    areacode@,
                ),
            decreases n - i,
        {
            let ghost before = out@;
            proof {
                assert(self@.take(i as int + 1).drop_last() =~= self@.take(i as int));
                assert(self@.take(i as int + 1).last() == self@[i as int]);
            }
            if str_starts_with(self.entries[i].number.as_str(), areacode) {
                out.push(self.entries[i].name.clone());
                proof {
                    assert(out@.map_values(|s: String| s@) =~= before.map_values(
                        |s: String| s@,
                    ).push(self@[i as int].name));
                }
            }
            i = i + 1;
        }
        proof {
            assert(self@.take(n as int) =~= self@);
        }
        out
    }
}

} // verus!
