//! The console functions that the launcher redirects.
use crate::names::{ascii, bytes_are, has_name, is_name, name_is};
use vstd::prelude::*;

verus! {

/// A console function of `KERNEL32.dll` that the launcher redirects.
#[derive(Clone, Copy, PartialEq, Eq, Structural, Debug)]
pub enum ConsoleApi {
    WriteConsoleOutputCharacterA,
    WriteConsoleOutputAttribute,
    SetConsoleCursorPosition,
    SetConsoleScreenBufferSize,
    SetConsoleWindowInfo,
    GetConsoleScreenBufferInfo,
    AllocConsole,
    FreeConsole,
}

/// The number of console functions that the launcher redirects.
pub const API_COUNT: usize = 8;

impl ConsoleApi {
    /// The name under which the function is exported.
    pub open spec fn name_chars(self) -> Seq<char> {
        match self {
            ConsoleApi::WriteConsoleOutputCharacterA => "WriteConsoleOutputCharacterA"@,
            ConsoleApi::WriteConsoleOutputAttribute => "WriteConsoleOutputAttribute"@,
            ConsoleApi::SetConsoleCursorPosition => "SetConsoleCursorPosition"@,
            ConsoleApi::SetConsoleScreenBufferSize => "SetConsoleScreenBufferSize"@,
            ConsoleApi::SetConsoleWindowInfo => "SetConsoleWindowInfo"@,
            ConsoleApi::GetConsoleScreenBufferInfo => "GetConsoleScreenBufferInfo"@,
            ConsoleApi::AllocConsole => "AllocConsole"@,
            ConsoleApi::FreeConsole => "FreeConsole"@,
        }
    }

    /// The name under which the function is exported, as bytes.
    pub open spec fn name_bytes(self) -> Seq<u8> {
        ascii(self.name_chars())
    }

    /// The place of the function in a table with one entry for each.
    pub open spec fn place(self) -> int {
        match self {
            ConsoleApi::WriteConsoleOutputCharacterA => 0,
            ConsoleApi::WriteConsoleOutputAttribute => 1,
            ConsoleApi::SetConsoleCursorPosition => 2,
            ConsoleApi::SetConsoleScreenBufferSize => 3,
            ConsoleApi::SetConsoleWindowInfo => 4,
            ConsoleApi::GetConsoleScreenBufferInfo => 5,
            ConsoleApi::AllocConsole => 6,
            ConsoleApi::FreeConsole => 7,
        }
    }

    /// Gives the name under which the function is exported.
    pub fn name(self) -> (r: &'static str)
        ensures
            r@ == self.name_chars(),
            is_name(r@),
    {
        proof {
            lemma_names(self);
        }
        match self {
            ConsoleApi::WriteConsoleOutputCharacterA => "WriteConsoleOutputCharacterA",
            ConsoleApi::WriteConsoleOutputAttribute => "WriteConsoleOutputAttribute",
            ConsoleApi::SetConsoleCursorPosition => "SetConsoleCursorPosition",
            ConsoleApi::SetConsoleScreenBufferSize => "SetConsoleScreenBufferSize",
            ConsoleApi::SetConsoleWindowInfo => "SetConsoleWindowInfo",
            ConsoleApi::GetConsoleScreenBufferInfo => "GetConsoleScreenBufferInfo",
            ConsoleApi::AllocConsole => "AllocConsole",
            ConsoleApi::FreeConsole => "FreeConsole",
        }
    }

    /// Gives the place of the function in a table with one entry for each.
    pub fn index(self) -> (r: usize)
        ensures
            r == self.place(),
            r < API_COUNT,
    {
        match self {
            ConsoleApi::WriteConsoleOutputCharacterA => 0,
            ConsoleApi::WriteConsoleOutputAttribute => 1,
            ConsoleApi::SetConsoleCursorPosition => 2,
            ConsoleApi::SetConsoleScreenBufferSize => 3,
            ConsoleApi::SetConsoleWindowInfo => 4,
            ConsoleApi::GetConsoleScreenBufferInfo => 5,
            ConsoleApi::AllocConsole => 6,
            ConsoleApi::FreeConsole => 7,
        }
    }
}

/// The names are ASCII, and their lengths and first letters tell them apart.
pub proof fn lemma_names(a: ConsoleApi)
    ensures
        is_name(a.name_chars()),
        a.name_chars().len() == match a {
            ConsoleApi::WriteConsoleOutputCharacterA => 28int,
            ConsoleApi::WriteConsoleOutputAttribute => 27,
            ConsoleApi::SetConsoleCursorPosition => 24,
            ConsoleApi::SetConsoleScreenBufferSize => 26,
            ConsoleApi::SetConsoleWindowInfo => 20,
            ConsoleApi::GetConsoleScreenBufferInfo => 26,
            ConsoleApi::AllocConsole => 12,
            ConsoleApi::FreeConsole => 11,
        },
        a is SetConsoleScreenBufferSize ==> a.name_chars()[0] == 'S',
        a is GetConsoleScreenBufferInfo ==> a.name_chars()[0] == 'G',
{
    reveal_strlit("WriteConsoleOutputCharacterA");
    reveal_strlit("WriteConsoleOutputAttribute");
    reveal_strlit("SetConsoleCursorPosition");
    reveal_strlit("SetConsoleScreenBufferSize");
    reveal_strlit("SetConsoleWindowInfo");
    reveal_strlit("GetConsoleScreenBufferInfo");
    reveal_strlit("AllocConsole");
    reveal_strlit("FreeConsole");
}

/// Two redirected functions with the same name are the same.
pub proof fn lemma_names_differ(a: ConsoleApi, b: ConsoleApi)
    requires
        a.name_bytes() == b.name_bytes(),
    ensures
        a == b,
{
    lemma_names(a);
    lemma_names(b);
    assert(a.name_chars().len() == a.name_bytes().len());
    assert(b.name_chars().len() == b.name_bytes().len());
    assert(a.name_bytes()[0] == a.name_chars()[0] as u8);
    assert(b.name_bytes()[0] == b.name_chars()[0] as u8);
}

/// The redirected function whose name stands at offset `at`, if there is one.
pub open spec fn api_at(m: Seq<u8>, at: int) -> Option<ConsoleApi> {
    if exists|a: ConsoleApi| has_name(m, at, #[trigger] a.name_bytes()) {
        Some(choose|a: ConsoleApi| has_name(m, at, #[trigger] a.name_bytes()))
    } else {
        None
    }
}

/// A name belongs to one redirected function at most.
pub proof fn lemma_name_is_unique(m: Seq<u8>, at: int, a: ConsoleApi, b: ConsoleApi)
    requires
        has_name(m, at, a.name_bytes()),
        has_name(m, at, b.name_bytes()),
    ensures
        a == b,
{
    lemma_names(a);
    lemma_names(b);
    if a.name_bytes().len() < b.name_bytes().len() {
        let i = a.name_bytes().len() as int;
        assert(m[at + i] == b.name_bytes()[i]);
    } else if b.name_bytes().len() < a.name_bytes().len() {
        let i = b.name_bytes().len() as int;
        assert(m[at + i] == a.name_bytes()[i]);
    } else {
        assert forall|i: int| 0 <= i < a.name_bytes().len() implies a.name_bytes()[i]
            == b.name_bytes()[i] by {
            assert(m[at + i] == a.name_bytes()[i] && m[at + i] == b.name_bytes()[i]);
        }
        assert(a.name_bytes() =~= b.name_bytes());
        lemma_names_differ(a, b);
    }
}

/// The function found at an offset is the one whose name stands there.
pub proof fn lemma_api_at(m: Seq<u8>, at: int)
    ensures
        forall|a: ConsoleApi|
            api_at(m, at) == Some(a) <==> has_name(m, at, #[trigger] a.name_bytes()),
{
    assert forall|a: ConsoleApi|
        api_at(m, at) == Some(a) <==> has_name(m, at, #[trigger] a.name_bytes()) by {
        if has_name(m, at, a.name_bytes()) {
            lemma_name_is_unique(m, at, a, api_at(m, at)->0);
        }
    }
}

/// Gives every redirected function at its place.
pub fn all_apis() -> (r: [ConsoleApi; 8])
    ensures
        forall|a: ConsoleApi| r@[#[trigger] a.place()] == a,
        forall|i: int| 0 <= i < API_COUNT ==> (#[trigger] r@[i]).place() == i,
{
    [
        ConsoleApi::WriteConsoleOutputCharacterA,
        ConsoleApi::WriteConsoleOutputAttribute,
        ConsoleApi::SetConsoleCursorPosition,
        ConsoleApi::SetConsoleScreenBufferSize,
        ConsoleApi::SetConsoleWindowInfo,
        ConsoleApi::GetConsoleScreenBufferInfo,
        ConsoleApi::AllocConsole,
        ConsoleApi::FreeConsole,
    ]
}

/// Finds the redirected function whose name stands at offset `at`.
pub fn find_api(image: &[u8], at: u64) -> (r: Option<ConsoleApi>)
    ensures
        r == api_at(image@, at as int),
{
    proof {
        lemma_api_at(image@, at as int);
    }
    let all: [ConsoleApi; 8] = all_apis();
    let mut i: usize = 0;
    while i < API_COUNT
        invariant
            i <= API_COUNT,
            all@.len() == API_COUNT,
            forall|a: ConsoleApi| all@[#[trigger] a.place()] == a,
            forall|j: int|
                0 <= j < i ==> !has_name(image@, at as int, #[trigger] all@[j].name_bytes()),
            forall|a: ConsoleApi|
                api_at(image@, at as int) == Some(a) <==> has_name(
                    image@,
                    at as int,
                    #[trigger] a.name_bytes(),
                ),
        decreases API_COUNT - i,
    {
        let a: ConsoleApi = all[i];
        if name_is(image, at, a.name()) {
            assert(has_name(image@, at as int, a.name_bytes()));
            return Some(a);
        }
        i = i + 1;
    }
    assert forall|a: ConsoleApi| !has_name(image@, at as int, #[trigger] a.name_bytes()) by {
        assert(!has_name(image@, at as int, all@[a.place()].name_bytes()));
    }
    None
}

/// One number for each redirected function.
#[derive(Clone, Copy, Debug)]
pub struct ApiTable {
    pub values: [u64; 8],
}

impl ApiTable {
    /// The number that belongs to the function `a`.
    pub open spec fn of(self, a: ConsoleApi) -> u64 {
        self.values@[a.place()]
    }

    /// Makes a table in which every number is zero.
    pub fn zeroed() -> (r: ApiTable)
        ensures
            forall|a: ConsoleApi| #[trigger] r.of(a) == 0,
    {
        ApiTable { values: [0, 0, 0, 0, 0, 0, 0, 0] }
    }

    /// Gives the number that belongs to the function `a`.
    pub fn get(&self, a: ConsoleApi) -> (r: u64)
        ensures
            r == self.of(a),
    {
        self.values[a.index()]
    }

    /// Replaces the number that belongs to the function `a`, and no other.
    pub fn set(&mut self, a: ConsoleApi, v: u64)
        ensures
            forall|b: ConsoleApi| #[trigger]
                final(self).of(b) == if a == b {
                    v
                } else {
                    old(self).of(b)
                },
    {
        self.values[a.index()] = v;
    }
}

/// Remembers `original` as the address of the function called `name`. A name that belongs to no
/// redirected function changes nothing.
pub fn save_original(originals: &mut ApiTable, name: &[u8], original: u64)
    ensures
        forall|a: ConsoleApi| #[trigger]
            final(originals).of(a) == if name@ == a.name_bytes() {
                original
            } else {
                old(originals).of(a)
            },
{
    let all: [ConsoleApi; 8] = all_apis();
    let mut i: usize = 0;
    while i < API_COUNT
        invariant
            i <= API_COUNT,
            all@.len() == API_COUNT,
            forall|j: int| 0 <= j < API_COUNT ==> (#[trigger] all@[j]).place() == j,
            forall|a: ConsoleApi| all@[#[trigger] a.place()] == a,
            forall|a: ConsoleApi| #[trigger]
                originals.of(a) == if a.place() < i && name@ == a.name_bytes() {
                    original
                } else {
                    old(originals).of(a)
                },
        decreases API_COUNT - i,
    {
        let a: ConsoleApi = all[i];
        if bytes_are(name, a.name()) {
            originals.set(a, original);
        }
        i = i + 1;
    }
}

/// The redirected functions are those with these eight names, each under its own.
pub proof fn law_names_of_the_redirected_functions(m: Seq<u8>, at: int)
    ensures
        api_at(m, at) == Some(ConsoleApi::WriteConsoleOutputCharacterA) <==> has_name(
            m,
            at,
            ascii("WriteConsoleOutputCharacterA"@),
        ),
        api_at(m, at) == Some(ConsoleApi::WriteConsoleOutputAttribute) <==> has_name(
            m,
            at,
            ascii("WriteConsoleOutputAttribute"@),
        ),
        api_at(m, at) == Some(ConsoleApi::SetConsoleCursorPosition) <==> has_name(
            m,
            at,
            ascii("SetConsoleCursorPosition"@),
        ),
        api_at(m, at) == Some(ConsoleApi::SetConsoleScreenBufferSize) <==> has_name(
            m,
            at,
            ascii("SetConsoleScreenBufferSize"@),
        ),
        api_at(m, at) == Some(ConsoleApi::SetConsoleWindowInfo) <==> has_name(
            m,
            at,
            ascii("SetConsoleWindowInfo"@),
        ),
        api_at(m, at) == Some(ConsoleApi::GetConsoleScreenBufferInfo) <==> has_name(
            m,
            at,
            ascii("GetConsoleScreenBufferInfo"@),
        ),
        api_at(m, at) == Some(ConsoleApi::AllocConsole) <==> has_name(
            m,
            at,
            ascii("AllocConsole"@),
        ),
        api_at(m, at) == Some(ConsoleApi::FreeConsole) <==> has_name(m, at, ascii("FreeConsole"@)),
{
    lemma_api_at(m, at);
    assert(ConsoleApi::WriteConsoleOutputCharacterA.name_bytes() == ascii(
        "WriteConsoleOutputCharacterA"@,
    ));
    assert(ConsoleApi::WriteConsoleOutputAttribute.name_bytes() == ascii(
        "WriteConsoleOutputAttribute"@,
    ));
    assert(ConsoleApi::SetConsoleCursorPosition.name_bytes() == ascii("SetConsoleCursorPosition"@));
    assert(ConsoleApi::SetConsoleScreenBufferSize.name_bytes() == ascii(
        "SetConsoleScreenBufferSize"@,
    ));
    assert(ConsoleApi::SetConsoleWindowInfo.name_bytes() == ascii("SetConsoleWindowInfo"@));
    assert(ConsoleApi::GetConsoleScreenBufferInfo.name_bytes() == ascii(
        "GetConsoleScreenBufferInfo"@,
    ));
    assert(ConsoleApi::AllocConsole.name_bytes() == ascii("AllocConsole"@));
    assert(ConsoleApi::FreeConsole.name_bytes() == ascii("FreeConsole"@));
}

/// Every redirected function has a place of its own in a table with one entry for each.
pub proof fn law_places_differ(a: ConsoleApi, b: ConsoleApi)
    ensures
        0 <= a.place() < API_COUNT,
        a.place() == b.place() ==> a == b,
{
}

} // verus!
