//! The three object kinds and the tree-entry modes, with their fixed textual
//! keywords and codes.

use vstd::prelude::*;
use crate::str_eq;

verus! {

pub const INDEX_KEY: &'static str = "index";

pub const TREE_KEY: &'static str = "tree";

pub const BLOB_KEY: &'static str = "blob";

/// The kind of an object: a leaf blob, an internal tree, or a root index.
#[derive(Copy, Clone, Debug, PartialEq, Eq, Structural, Hash)]
pub enum ObjectType {
    Blob,
    Tree,
    Index,
}

/// The fixed lowercase keyword of an object kind, as characters.
pub open spec fn type_key(t: ObjectType) -> Seq<char> {
    match t {
        ObjectType::Blob => seq!['b', 'l', 'o', 'b'],
        ObjectType::Tree => seq!['t', 'r', 'e', 'e'],
        ObjectType::Index => seq!['i', 'n', 'd', 'e', 'x'],
    }
}

/// The fixed lowercase keyword of an object kind, as ASCII bytes.
pub open spec fn type_key_bytes(t: ObjectType) -> Seq<u8> {
    match t {
        ObjectType::Blob => seq![98u8, 108u8, 111u8, 98u8],
        ObjectType::Tree => seq![116u8, 114u8, 101u8, 101u8],
        ObjectType::Index => seq![105u8, 110u8, 100u8, 101u8, 120u8],
    }
}

/// The byte keyword is the character keyword read as ASCII.
pub proof fn lemma_type_key_ascii(t: ObjectType)
    ensures
        type_key_bytes(t) =~= Seq::new(type_key(t).len(), |i: int| type_key(t)[i] as u8),
        vstd::utf8::is_ascii_chars(type_key(t)),
{
}

/// The three keywords are pairwise distinct.
pub proof fn lemma_type_keys_distinct()
    ensures
        type_key_bytes(ObjectType::Blob) != type_key_bytes(ObjectType::Tree),
        type_key_bytes(ObjectType::Blob) != type_key_bytes(ObjectType::Index),
        type_key_bytes(ObjectType::Tree) != type_key_bytes(ObjectType::Index),
{
    assert(type_key_bytes(ObjectType::Blob)[0] == 98);
    assert(type_key_bytes(ObjectType::Tree)[0] == 116);
    assert(type_key_bytes(ObjectType::Blob).len() == 4);
    assert(type_key_bytes(ObjectType::Tree).len() == 4);
    assert(type_key_bytes(ObjectType::Index).len() == 5);
}

/// The three keywords are pairwise distinct as character sequences.
pub proof fn lemma_type_keys_chars_distinct()
    ensures
        type_key(ObjectType::Blob) != type_key(ObjectType::Tree),
        type_key(ObjectType::Blob) != type_key(ObjectType::Index),
        type_key(ObjectType::Tree) != type_key(ObjectType::Index),
{
    assert(type_key(ObjectType::Blob)[0] == 'b');
    assert(type_key(ObjectType::Tree)[0] == 't');
    assert(type_key(ObjectType::Blob).len() == 4);
    assert(type_key(ObjectType::Tree).len() == 4);
    assert(type_key(ObjectType::Index).len() == 5);
}

impl ObjectType {
    /// Parse an object kind from its keyword.
    pub fn from_str(value: &str) -> (r: Option<ObjectType>)
        ensures
            r matches Some(t) ==> value@ == type_key(t),
            r is None ==> (forall|t: ObjectType| value@ != type_key(t)),
    {
        proof {
            reveal_strlit("blob");
            reveal_strlit("tree");
            reveal_strlit("index");
            assert("blob"@ =~= type_key(ObjectType::Blob));
            assert("tree"@ =~= type_key(ObjectType::Tree));
            assert("index"@ =~= type_key(ObjectType::Index));
        }
        if str_eq(value, BLOB_KEY) {
            Some(ObjectType::Blob)
        } else if str_eq(value, TREE_KEY) {
            Some(ObjectType::Tree)
        } else if str_eq(value, INDEX_KEY) {
            Some(ObjectType::Index)
        } else {
            proof {
                assert forall|t: ObjectType| value@ != type_key(t) by {
                    match t {
                        ObjectType::Blob => {},
                        ObjectType::Tree => {},
                        ObjectType::Index => {},
                    }
                }
            }
            None
        }
    }

    /// The keyword of this kind.
    pub fn to_str(&self) -> (r: &'static str)
        ensures
            r@ == type_key(*self),
            r.is_ascii(),
    {
        proof {
            reveal_strlit("blob");
            reveal_strlit("tree");
            reveal_strlit("index");
            assert("blob"@ =~= type_key(ObjectType::Blob));
            assert("tree"@ =~= type_key(ObjectType::Tree));
            assert("index"@ =~= type_key(ObjectType::Index));
            lemma_type_key_ascii(*self);
        }
        match self {
            ObjectType::Blob => BLOB_KEY,
            ObjectType::Index => INDEX_KEY,
            ObjectType::Tree => TREE_KEY,
        }
    }
}

/// The mode of a tree entry: a nested directory, a regular file, an
/// executable, or a symbolic link.
#[derive(Copy, Clone, Debug, PartialEq, Eq, Structural)]
pub enum Mode {
    Tree,
    Normal,
    Executable,
    SymbolicLink,
}

/// The fixed 6-character textual code of a mode, as characters.
pub open spec fn mode_code(m: Mode) -> Seq<char> {
    match m {
        Mode::Tree => seq!['0', '4', '0', '0', '0', '0'],
        Mode::Normal => seq!['1', '0', '0', '6', '4', '4'],
        Mode::Executable => seq!['1', '0', '0', '7', '5', '5'],
        Mode::SymbolicLink => seq!['1', '2', '0', '0', '0', '0'],
    }
}

/// The fixed 6-character textual code of a mode, as ASCII bytes.
pub open spec fn mode_code_bytes(m: Mode) -> Seq<u8> {
    match m {
        Mode::Tree => seq![48u8, 52u8, 48u8, 48u8, 48u8, 48u8],
        Mode::Normal => seq![49u8, 48u8, 48u8, 54u8, 52u8, 52u8],
        Mode::Executable => seq![49u8, 48u8, 48u8, 55u8, 53u8, 53u8],
        Mode::SymbolicLink => seq![49u8, 50u8, 48u8, 48u8, 48u8, 48u8],
    }
}

/// The byte code is the character code read as ASCII, 6 bytes, none of them
/// a NUL or a space.
pub proof fn lemma_mode_code_ascii(m: Mode)
    ensures
        mode_code_bytes(m) =~= Seq::new(mode_code(m).len(), |i: int| mode_code(m)[i] as u8),
        vstd::utf8::is_ascii_chars(mode_code(m)),
        mode_code_bytes(m).len() == 6,
        forall|i: int| 0 <= i < 6 ==> mode_code_bytes(m)[i] != 0 && mode_code_bytes(m)[i] != 32,
{
}

impl Mode {
    /// Parse a mode from its 6-character code.
    pub fn from_str(value: &str) -> (r: Option<Mode>)
        ensures
            r matches Some(m) ==> value@ == mode_code(m),
            r is None ==> (forall|m: Mode| value@ != mode_code(m)),
    {
        proof {
            reveal_strlit("040000");
            reveal_strlit("100644");
            reveal_strlit("100755");
            reveal_strlit("120000");
            assert("040000"@ =~= mode_code(Mode::Tree));
            assert("100644"@ =~= mode_code(Mode::Normal));
            assert("100755"@ =~= mode_code(Mode::Executable));
            assert("120000"@ =~= mode_code(Mode::SymbolicLink));
        }
        if str_eq(value, "040000") {
            Some(Mode::Tree)
        } else if str_eq(value, "100644") {
            Some(Mode::Normal)
        } else if str_eq(value, "100755") {
            Some(Mode::Executable)
        } else if str_eq(value, "120000") {
            Some(Mode::SymbolicLink)
        } else {
            proof {
                assert forall|m: Mode| value@ != mode_code(m) by {
                    match m {
                        Mode::Tree => {},
                        Mode::Normal => {},
                        Mode::Executable => {},
                        Mode::SymbolicLink => {},
                    }
                }
            }
            None
        }
    }

    /// The 6-character code of this mode.
    pub fn to_str(&self) -> (r: &'static str)
        ensures
            r@ == mode_code(*self),
            r.is_ascii(),
    {
        proof {
            reveal_strlit("040000");
            reveal_strlit("100644");
            reveal_strlit("100755");
            reveal_strlit("120000");
            assert("040000"@ =~= mode_code(Mode::Tree));
            assert("100644"@ =~= mode_code(Mode::Normal));
            assert("100755"@ =~= mode_code(Mode::Executable));
            assert("120000"@ =~= mode_code(Mode::SymbolicLink));
            lemma_mode_code_ascii(*self);
        }
        match self {
            Mode::Normal => "100644",
            Mode::Tree => "040000",
            Mode::Executable => "100755",
            Mode::SymbolicLink => "120000",
        }
    }
}

} // verus!
