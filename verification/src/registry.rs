//! Lists of names, and the registry that gives each included file its id: a
//! name's id is its place in the order of first encounter, counted from 1.

use crate::text::{decimal, push_decimal, same_text, slice_text, string_of, texts};
use vstd::prelude::*;
use vstd::string::StringExecFns;

verus! {

/// The first place at or after `from` that holds `name`, or the length of
/// the list where none does.
pub open spec fn position_from(names: Seq<Seq<char>>, name: Seq<char>, from: int) -> int
    decreases names.len() - from,
{
    if from < 0 || from >= names.len() {
        names.len() as int
    } else if names[from] == name {
        from
    } else {
        position_from(names, name, from + 1)
    }
}

/// The first place that holds `name`, or the length of the list.
pub open spec fn position(names: Seq<Seq<char>>, name: Seq<char>) -> int {
    position_from(names, name, 0)
}

/// Whether the list holds the name.
pub open spec fn known(names: Seq<Seq<char>>, name: Seq<char>) -> bool {
    position(names, name) < names.len()
}

/// The list after `name` was met: a new name goes to the end, a known one
/// changes nothing.
pub open spec fn with_name(names: Seq<Seq<char>>, name: Seq<char>) -> Seq<Seq<char>> {
    if known(names, name) {
        names
    } else {
        names.push(name)
    }
}

/// The id of a name: one more than its place.
pub open spec fn id_of(names: Seq<Seq<char>>, name: Seq<char>) -> nat {
    (position(names, name) + 1) as nat
}

/// No name stands twice in the list.
pub open spec fn distinct(names: Seq<Seq<char>>) -> bool {
    forall|i: int, j: int| 0 <= i < j < names.len() ==> names[i] != names[j]
}

/// The place found holds the name, and no place before it does.
pub proof fn lemma_position_from(names: Seq<Seq<char>>, name: Seq<char>, from: int)
    requires
        0 <= from,
    ensures
        ({
            let at = position_from(names, name, from);
            &&& at == names.len() || (from <= at < names.len() && names[at] == name)
            &&& forall|k: int| from <= k < at && k < names.len() ==> names[k] != name
        }),
    decreases names.len() - from,
{
    if from < names.len() && names[from] != name {
        lemma_position_from(names, name, from + 1);
    }
}

/// A name is known exactly when some place holds it.
pub proof fn lemma_known(names: Seq<Seq<char>>, name: Seq<char>)
    ensures
        known(names, name) <==> names.contains(name),
        known(names, name) ==> names[position(names, name)] == name,
{
    lemma_position_from(names, name, 0);
    if names.contains(name) {
        let k = choose|k: int| 0 <= k < names.len() && names[k] == name;
        assert(names[k] == name);
    }
}

/// In a list without repetition a name's place is the place that holds it.
pub proof fn lemma_position_of_entry(names: Seq<Seq<char>>, k: int)
    requires
        distinct(names),
        0 <= k < names.len(),
    ensures
        position(names, names[k]) == k,
{
    lemma_position_from(names, names[k], 0);
}

/// Meeting a name keeps every place that was taken, and leaves the name at
/// the place that its id tells.
pub proof fn lemma_with_name(names: Seq<Seq<char>>, name: Seq<char>)
    ensures
        names.len() <= with_name(names, name).len() <= names.len() + 1,
        forall|k: int| 0 <= k < names.len() ==> with_name(names, name)[k] == names[k],
        known(with_name(names, name), name),
        position(with_name(names, name), name) == position(names, name),
        distinct(names) ==> distinct(with_name(names, name)),
        forall|other: Seq<char>|
            known(names, other) ==> position(with_name(names, name), other) == position(
                names,
                other,
            ),
{
    let after = with_name(names, name);
    lemma_position_from(names, name, 0);
    lemma_position_from(after, name, 0);
    if !known(names, name) {
        assert(after[names.len() as int] == name);
    }
    assert forall|other: Seq<char>| known(names, other) implies position(after, other)
        == position(names, other) by {
        lemma_position_from(names, other, 0);
        lemma_position_from(after, other, 0);
        let p = position(names, other);
        let q = position(after, other);
        assert(after[p] == names[p]);
        if q < p {
            assert(after[q] == names[q]);
        }
    }
}

/// The first place in a list of texts that holds `name`.
pub fn find_name(names: &Vec<Vec<char>>, name: &Vec<char>) -> (at: usize)
    ensures
        at as int == position(texts(names@), name@),
{
    let mut i: usize = 0;
    while i < names.len()
        invariant
            i <= names.len(),
            position(texts(names@), name@) == position_from(texts(names@), name@, i as int),
        decreases names.len() - i,
    {
        if same_text(&names[i], name) {
            return i;
        }
        i += 1;
    }
    i
}

/// The ids given so far: the names of the included files in the order in
/// which they were first met. The top-level source has the id 0 and no
/// entry here.
pub struct FileIds {
    names: Vec<Vec<char>>,
}

impl View for FileIds {
    type V = Seq<Seq<char>>;

    closed spec fn view(&self) -> Seq<Seq<char>> {
        texts(self.names@)
    }
}

impl FileIds {
    /// No name has two ids.
    pub open spec fn wf(&self) -> bool {
        distinct(self@)
    }

    /// A registry that has given no id yet.
    pub fn new() -> (r: FileIds)
        ensures
            r@ == Seq::<Seq<char>>::empty(),
            r.wf(),
    {
        let r = FileIds { names: Vec::new() };
        assert(texts(r.names@) == Seq::<Seq<char>>::empty());
        r
    }

    /// How many ids were given.
    pub fn len(&self) -> (n: usize)
        ensures
            n == self@.len(),
    {
        self.names.len()
    }

    /// The id of a name: the one it has, or the next free one, which it then
    /// keeps.
    pub fn resolve(&mut self, name: &Vec<char>) -> (id: usize)
        ensures
            final(self)@ == with_name(old(self)@, name@),
            id == id_of(final(self)@, name@),
            old(self).wf() ==> final(self).wf(),
    {
        proof {
            lemma_with_name(self@, name@);
        }
        let at = find_name(&self.names, name);
        if at < self.names.len() {
            at + 1
        } else {
            let ghost before = texts(self.names@);
            let copy = slice_text(name, 0, name.len());
            assert(copy@ == name@);
            self.names.push(copy);
            assert(texts(self.names@) == before.push(name@));
            self.names.len()
        }
    }
}

/// The name with that id, where the id was given: the ids run from 1 to
/// the number of names.
pub open spec fn name_of_id(names: Seq<Seq<char>>, id: nat) -> Option<Seq<char>> {
    if 1 <= id <= names.len() {
        Some(names[id - 1])
    } else {
        None
    }
}

impl FileIds {
    /// The names in the order of their ids: the first has the id 1.
    pub fn names(&self) -> (r: Vec<String>)
        ensures
            r@.len() == self@.len(),
            forall|k: int| 0 <= k < r@.len() ==> (#[trigger] r@[k])@ == self@[k],
    {
        let mut out: Vec<String> = Vec::new();
        let mut i: usize = 0;
        while i < self.names.len()
            invariant
                i <= self.names.len(),
                out@.len() == i,
                forall|k: int| 0 <= k < i ==> (#[trigger] out@[k])@ == self@[k],
            decreases self.names.len() - i,
        {
            out.push(string_of(&self.names[i]));
            i += 1;
        }
        out
    }
}

/// The name of the included file with that id, or `None` for an id that
/// was not given (0 is the id of the top-level source itself).
pub fn file_id_to_name(ids: &FileIds, id: u32) -> (r: Option<String>)
    ensures
        r is Some == name_of_id(ids@, id as nat) is Some,
        r is Some ==> r->0@ == name_of_id(ids@, id as nat)->0,
{
    if id >= 1 && id as usize <= ids.names.len() {
        Some(string_of(&ids.names[id as usize - 1]))
    } else {
        None
    }
}

/// What the `Debug` form of a string is, as `format!("{:?}", ..)` writes
/// it: the text between double quotes, with its escapes.
pub uninterp spec fn debug_quoted(text: Seq<char>) -> Seq<char>;

/// `format!` with `{:?}` on a string: the string as a Rust string literal.
/// The result is the standard library's own; the contract only gives it its
/// name.
#[verifier::external_body]
fn quoted(text: &str) -> (r: String)
    ensures
        r@ == debug_quoted(text@),
{
    format!("{:?}", text)
}

/// The arms of the lookup for the first `n` names: `<id> => Some(<name>),`
/// on a line each, in the order of the ids.
pub open spec fn lookup_arms(names: Seq<Seq<char>>, n: nat) -> Seq<char>
    decreases n,
{
    if n == 0 || n > names.len() {
        Seq::empty()
    } else {
        lookup_arms(names, (n - 1) as nat) + decimal(n) + " => Some("@ + debug_quoted(names[n - 1])
            + "),\n"@
    }
}

/// The source text of a function that gives the name for an id, if the id
/// was given: a `match` with an arm `Some(<name>)` for every such id, and
/// `None` for any other.
pub open spec fn lookup_source(names: Seq<Seq<char>>) -> Seq<char> {
    "pub fn id_to_file_name(id: u32) -> Option<&'static str> { match id {\n"@ + lookup_arms(
        names,
        names.len(),
    ) + "_ => None } }"@
}

impl FileIds {
    /// Writes the lookup from ids to names as source text.
    pub fn lookup_source(&self) -> (r: String)
        ensures
            r@ == lookup_source(self@),
    {
        let mut out = String::from_str(
            "pub fn id_to_file_name(id: u32) -> Option<&'static str> { match id {\n",
        );
        let ghost head = out@;
        let mut i: usize = 0;
        while i < self.names.len()
            invariant
                i <= self.names.len(),
                out@ == head + lookup_arms(self@, i as nat),
            decreases self.names.len() - i,
        {
            let mut id: Vec<char> = Vec::new();
            push_decimal(&mut id, i as u128 + 1);
            assert(id@ == decimal((i + 1) as nat));
            let name = string_of(&self.names[i]);
            out.append(string_of(&id).as_str());
            out.append(" => Some(");
            out.append(quoted(name.as_str()).as_str());
            out.append("),\n");
            assert(out@ == head + lookup_arms(self@, (i + 1) as nat));
            i += 1;
        }
        out.append("_ => None } }");
        out
    }
}

} // verus!
