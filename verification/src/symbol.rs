//! The symbol table: names interned to stable identifiers, so that names are
//! compared by number everywhere else.

use vstd::prelude::*;

verus! {

/// Identifier of the special form that returns its operand unevaluated.
pub const S_QUOTE: u32 = 0;
/// Identifier of the conditional.
pub const S_IF: u32 = 1;
/// Identifier of the form that binds a name in the current frame.
pub const S_DEF: u32 = 2;
/// Identifier of the form that makes an interpreted procedure.
pub const S_FN: u32 = 3;
/// Key under which the render thread finds the graphics engine's handle.
pub const S_ENGINE: u32 = 4;
/// Key under which the render thread finds the procedure it runs.
pub const S_RNDR: u32 = 5;
/// Key of the sending end of the queue from the manager to the renderer.
pub const S_MR_SEND: u32 = 6;
/// Key of the receiving end of the queue from the manager to the renderer.
pub const S_MR_RECV: u32 = 7;
/// Key of the receiving end of the queue from the context to the manager.
pub const S_CM_RECV: u32 = 8;
/// Key of the receiving end of the queue from the context to the renderer.
pub const S_CR_RECV: u32 = 9;
/// Key of the frame's dimensions.
pub const S_FR_DIMS: u32 = 10;
/// Key of the cursor's position.
pub const S_CUR_POS: u32 = 11;
/// Identifier of the form that evaluates its operands in order and yields the
/// value of the last.
pub const S_DO: u32 = 12;
/// How many identifiers a new table has given out.
pub const RESERVED_SYMBOLS: u32 = 13;

/// The names that every table starts with, each at the position that is its
/// identifier.
pub open spec fn reserved_names() -> Seq<Seq<char>> {
    seq![
        "quote"@,
        "if"@,
        "def"@,
        "fn"@,
        "engine"@,
        "rndr"@,
        "mr-send"@,
        "mr-recv"@,
        "cm-recv"@,
        "cr-recv"@,
        "fr-dims"@,
        "cur-pos"@,
        "do"@,
    ]
}

/// Position of `name` in `names`, or `None` where it is not among them.
pub open spec fn position_of(names: Seq<Seq<char>>, name: Seq<char>) -> Option<int> {
    if names.contains(name) {
        Some(names.index_of(name))
    } else {
        None
    }
}

/// The table after interning `name`: unchanged where the name is known or no
/// identifier is left, else longer by that name.
pub open spec fn table_after_intern(names: Seq<Seq<char>>, name: Seq<char>) -> Seq<Seq<char>> {
    if names.contains(name) || names.len() >= u32::MAX {
        names
    } else {
        names.push(name)
    }
}

/// The identifier that interning `name` yields: the known one, else the next
/// free one, else none.
pub open spec fn id_after_intern(names: Seq<Seq<char>>, name: Seq<char>) -> Option<int> {
    if names.contains(name) {
        Some(names.index_of(name))
    } else if names.len() >= u32::MAX {
        None
    } else {
        Some(names.len() as int)
    }
}

/// An append-only table of names. The identifier of a name is its position.
#[derive(Debug)]
pub struct SymbolTable {
    pub names: Vec<String>,
}

impl View for SymbolTable {
    type V = Seq<Seq<char>>;

    open spec fn view(&self) -> Seq<Seq<char>> {
        self.names@.map_values(|n: String| n@)
    }
}

impl SymbolTable {
    /// The table's invariant: no name occurs twice, and every position fits an
    /// identifier.
    pub open spec fn wf(&self) -> bool {
        &&& self@.no_duplicates()
        &&& self@.len() <= u32::MAX
    }

    /// A table that holds the reserved names and no others.
    pub fn new() -> (t: SymbolTable)
        ensures
            t.wf(),
            t@ == reserved_names(),
    {
        let mut names: Vec<String> = Vec::new();
        names.push("quote".to_owned());
        names.push("if".to_owned());
        names.push("def".to_owned());
        names.push("fn".to_owned());
        names.push("engine".to_owned());
        names.push("rndr".to_owned());
        names.push("mr-send".to_owned());
        names.push("mr-recv".to_owned());
        names.push("cm-recv".to_owned());
        names.push("cr-recv".to_owned());
        names.push("fr-dims".to_owned());
        names.push("cur-pos".to_owned());
        names.push("do".to_owned());
        let t = SymbolTable { names };
        proof {
            assert(t@ =~= reserved_names());
            lemma_reserved_names_distinct();
        }
        t
    }

    /// Number of names in the table.
    pub fn len(&self) -> (n: usize)
        ensures
            n == self@.len(),
    {
        self.names.len()
    }

    /// The identifier of `name`, if the table holds it.
    pub fn find(&self, name: &str) -> (id: Option<u32>)
        requires
            self.wf(),
        ensures
            match id {
                Some(i) => position_of(self@, name@) == Some(i as int),
                None => position_of(self@, name@) is None,
            },
    {
        let wanted: String = name.to_owned();
        let n: usize = self.names.len();
        let mut i: usize = 0;
        while i < n
            invariant
                n == self.names@.len(),
                self.wf(),
                i <= n,
                wanted@ == name@,
                forall|j: int| 0 <= j < i ==> self@[j] != name@,
            decreases n - i,
        {
            if self.names[i] == wanted {
                proof {
                    assert(self@[i as int] == name@);
                    lemma_position_unique(self@, name@, i as int);
                }
                return Some(i as u32);
            }
            i = i + 1;
        }
        proof {
            if self@.contains(name@) {
                let k = choose|k: int| 0 <= k < self@.len() && self@[k] == name@;
                assert(self@[k] != name@);
            }
        }
        None
    }

    /// Returns the identifier of `name`, giving it the next free one where the
    /// table does not know the name yet. `None` means that the name is new and
    /// no identifier is left; the table is then unchanged.
    pub fn intern(&mut self, name: &str) -> (id: Option<u32>)
        requires
            old(self).wf(),
        ensures
            final(self).wf(),
            final(self)@ == table_after_intern(old(self)@, name@),
            match id {
                Some(i) => id_after_intern(old(self)@, name@) == Some(i as int),
                None => id_after_intern(old(self)@, name@) is None,
            },
    {
        match self.find(name) {
            Some(i) => Some(i),
            None => {
                let n: usize = self.names.len();
                if n >= u32::MAX as usize {
                    return None;
                }
                let ghost before = self@;
                self.names.push(name.to_owned());
                proof {
                    assert(self@ =~= before.push(name@));
                    assert forall|i: int, j: int|
                        0 <= i < self@.len() && 0 <= j < self@.len() && i != j implies self@[i]
                        != self@[j] by {
                        if i < before.len() && j < before.len() {
                            assert(before[i] != before[j]);
                        } else if i < before.len() {
                            assert(before.contains(before[i]));
                        } else {
                            assert(before.contains(before[j]));
                        }
                    }
                }
                Some(n as u32)
            },
        }
    }

    /// The name behind an identifier, if the table has given it out.
    pub fn resolve(&self, id: u32) -> (name: Option<String>)
        ensures
            name is Some <==> id < self@.len(),
            name is Some ==> name->0@ == self@[id as int],
    {
        if (id as usize) < self.names.len() {
            Some(self.names[id as usize].clone())
        } else {
            None
        }
    }
}

/// In a table without duplicates a name stands at one position only.
pub proof fn lemma_position_unique(names: Seq<Seq<char>>, name: Seq<char>, i: int)
    requires
        names.no_duplicates(),
        0 <= i < names.len(),
        names[i] == name,
    ensures
        names.contains(name),
        names.index_of(name) == i,
{
    assert(names.contains(name));
    let k = names.index_of(name);
    assert(0 <= k < names.len() && names[k] == name);
}

/// The reserved names differ from one another.
pub proof fn lemma_reserved_names_distinct()
    ensures
        reserved_names().no_duplicates(),
        reserved_names().len() == RESERVED_SYMBOLS,
{
    reveal_strlit("quote");
    reveal_strlit("if");
    reveal_strlit("def");
    reveal_strlit("fn");
    reveal_strlit("engine");
    reveal_strlit("rndr");
    reveal_strlit("mr-send");
    reveal_strlit("mr-recv");
    reveal_strlit("cm-recv");
    reveal_strlit("cr-recv");
    reveal_strlit("fr-dims");
    reveal_strlit("cur-pos");
    reveal_strlit("do");
    let r = reserved_names();
    assert(r[0].len() == 5 && r[1].len() == 2 && r[2].len() == 3 && r[3].len() == 2);
    assert(r[4].len() == 6 && r[5].len() == 4);
    assert(r[1][0] == 'i' && r[3][0] == 'f');
    assert(r[6][0] == 'm' && r[6][3] == 's');
    assert(r[7][0] == 'm' && r[7][3] == 'r');
    assert(r[8][0] == 'c' && r[8][1] == 'm');
    assert(r[9][0] == 'c' && r[9][1] == 'r');
    assert(r[10][0] == 'f');
    assert(r[11][0] == 'c' && r[11][1] == 'u');
    assert(r[12].len() == 2 && r[12][0] == 'd');
    assert(r[6].len() == 7 && r[7].len() == 7 && r[8].len() == 7 && r[9].len() == 7 && r[10].len()
        == 7 && r[11].len() == 7);
}

/// Interning is idempotent and `resolve` is its inverse: a second `intern` of
/// the same name changes nothing and yields the same identifier, and that
/// identifier stands for the name.
pub proof fn lemma_intern_idempotent(names: Seq<Seq<char>>, name: Seq<char>)
    requires
        names.no_duplicates(),
        id_after_intern(names, name) is Some,
    ensures
        table_after_intern(table_after_intern(names, name), name) == table_after_intern(
            names,
            name,
        ),
        id_after_intern(table_after_intern(names, name), name) == id_after_intern(names, name),
        0 <= id_after_intern(names, name)->0 < table_after_intern(names, name).len(),
        table_after_intern(names, name)[id_after_intern(names, name)->0] == name,
        table_after_intern(names, name).no_duplicates(),
{
    let after = table_after_intern(names, name);
    if names.contains(name) {
        let k = names.index_of(name);
        assert(0 <= k < names.len() && names[k] == name);
    } else {
        assert(after == names.push(name));
        assert(after[names.len() as int] == name);
        assert forall|i: int, j: int|
            0 <= i < after.len() && 0 <= j < after.len() && i != j implies after[i]
            != after[j] by {
            if i < names.len() && j < names.len() {
                assert(names[i] != names[j]);
            } else if i < names.len() {
                assert(names.contains(names[i]));
            } else {
                assert(names.contains(names[j]));
            }
        }
        lemma_position_unique(after, name, names.len() as int);
    }
}

} // verus!
