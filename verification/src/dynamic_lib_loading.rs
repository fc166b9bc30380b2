//! The decisions around loading the shared library that holds the user functions:
//! where the library lies, and what each outcome of the loader means.

use vstd::prelude::*;
use vstd::string::StringExecFns;
use vstd::utf8::{encode_scalar, encode_utf8};
use crate::source_scan::{chars_of, string_from_chars};

verus! {

broadcast use vstd::utf8::char_is_scalar;

/// Lazy function call binding.
pub const RTLD_LAZY: i32 = 0x00001;

/// Immediate function call binding.
pub const RTLD_NOW: i32 = 0x00002;

/// Mask of binding time value.
pub const RTLD_BINDING_MASK: i32 = 0x3;

/// Do not load the object.
pub const RTLD_NOLOAD: i32 = 0x00004;

/// Use deep binding.
pub const RTLD_DEEPBIND: i32 = 0x00008;

/// Make the symbols of the loaded object visible as if it were linked into the program.
pub const RTLD_GLOBAL: i32 = 0x00100;

/// The inverse of `RTLD_GLOBAL`, which is the default.
pub const RTLD_LOCAL: i32 = 0;

/// Do not delete the object when it is closed.
pub const RTLD_NODELETE: i32 = 0x01000;

/// The outcome of opening the library at `lib_path`: a null handle is a failure.
pub fn open_outcome(handle_is_null: bool, lib_path: &str) -> (r: Result<(), String>)
    ensures
        handle_is_null ==> r is Err && r->Err_0@ == "Shared lib is null! "@ + lib_path@ + "  Check file path/name."@,
        !handle_is_null ==> r is Ok,
{
    if handle_is_null {
        Err(String::from_str("Shared lib is null! ").concat(lib_path).concat("  Check file path/name."))
    } else {
        Ok(())
    }
}

/// The outcome of looking a function up in the library: a null address is a failure.
pub fn lookup_outcome(fn_is_null: bool) -> (r: Result<(), String>)
    ensures
        fn_is_null ==> r is Err && r->Err_0@ == "Function name could not be found."@,
        !fn_is_null ==> r is Ok,
{
    if fn_is_null {
        Err(String::from_str("Function name could not be found."))
    } else {
        Ok(())
    }
}

/// The text of the loader's last error, given what the loader reported.
pub fn get_error(reported: Option<String>) -> (s: String)
    ensures
        reported is None ==> s@ == "No Error"@,
        reported is Some ==> s@ == reported->Some_0@,
{
    match reported {
        None => String::from_str("No Error"),
        Some(e) => e,
    }
}

/// The text of the loader's last error where errors cannot be read back from the
/// loader, as on Windows.
pub fn windows_get_error() -> (s: String)
    ensures
        s@ == "Windows version has not been implemented"@,
{
    String::from_str("Windows version has not been implemented")
}

/// The size from which a changed library counts as fully written.
pub const FULL_LIBRARY_BYTES: u64 = 500_000;

/// One look at the library file: whether to load it again, and the size to compare
/// the next look with. It is loaded again when it is newer than the loaded one and
/// its size is the one last seen; a newer file that is not loaded and is larger
/// than `FULL_LIBRARY_BYTES` sets the size to compare with.
pub fn reload_step(newer: bool, last_size: u64, new_size: u64) -> (r: (bool, u64))
    ensures
        r.0 == (newer && last_size == new_size),
        r.1 == (if newer && !r.0 && new_size > FULL_LIBRARY_BYTES { new_size } else { last_size }),
{
    let reload = newer && last_size == new_size;
    let mut next = last_size;
    if newer && !reload && new_size > FULL_LIBRARY_BYTES {
        next = new_size;
    }
    (reload, next)
}

/// What to report when closing the library returned `status`: nothing on success.
pub fn close_outcome(status: i32) -> (r: Option<String>)
    ensures
        status == 0 ==> r is None,
        status != 0 ==> r is Some && r->Some_0@ == "Could not properly close shared library."@,
{
    if status != 0 {
        Some(String::from_str("Could not properly close shared library."))
    } else {
        None
    }
}

/// The index just after the last `/` among the first `i` characters of `t`, or 0.
pub open spec fn after_last_slash(t: Seq<char>, i: int) -> int
    decreases i,
{
    if i <= 0 || i > t.len() {
        0
    } else if t[i - 1] == '/' {
        i
    } else {
        after_last_slash(t, i - 1)
    }
}

/// The last component of a path: what follows its last `/`.
pub open spec fn last_component(path: Seq<char>) -> Seq<char> {
    path.subrange(after_last_slash(path, path.len() as int), path.len() as int)
}

/// Cutting `name` before index `j` removes exactly its last three bytes.
pub open spec fn cuts_three_bytes(name: Seq<char>, j: int) -> bool {
    0 <= j <= name.len() && encode_utf8(name.subrange(j, name.len() as int)).len() == 3
}

/// The library built from the source file `path` on Linux: the same directory,
/// `lib` before the file name, and `.so` in place of its last three bytes.
pub open spec fn shared_lib_of(path: Seq<char>, j: int) -> Seq<char> {
    let k = after_last_slash(path, path.len() as int);
    path.subrange(0, k) + "lib"@ + last_component(path).subrange(0, j) + ".so"@
}

/// The UTF-8 encoding of a nonempty sequence is that of its first character and then the rest.
proof fn lemma_encode_step(s: Seq<char>, j: int)
    requires
        0 <= j < s.len(),
    ensures
        encode_utf8(s.subrange(j, s.len() as int)).len() == encode_scalar(s[j] as u32).len()
            + encode_utf8(s.subrange(j + 1, s.len() as int)).len(),
{
    let t = s.subrange(j, s.len() as int);
    assert(t.drop_first() =~= s.subrange(j + 1, s.len() as int));
}

proof fn lemma_after_last_slash(t: Seq<char>, i: int)
    requires
        0 <= i <= t.len(),
    ensures
        0 <= after_last_slash(t, i) <= i,
        forall|m: int| after_last_slash(t, i) <= m < i ==> t[m] != '/',
        after_last_slash(t, i) > 0 ==> t[after_last_slash(t, i) - 1] == '/',
    decreases i,
{
    if i > 0 && t[i - 1] != '/' {
        lemma_after_last_slash(t, i - 1);
    }
}

/// The bytes of the encoding of `c`.
fn char_utf8_len(c: char) -> (n: usize)
    ensures
        n == encode_scalar(c as u32).len(),
        1 <= n <= 4,
{
    let v = c as u32;
    if v <= 0x7F {
        1
    } else if v <= 0x7FF {
        2
    } else if v <= 0xFFFF {
        3
    } else {
        4
    }
}

/// The cut before index `j` is the only one that removes three bytes when the
/// bytes after `j` number at least three and those after `j + 1` fewer.
proof fn lemma_cut_unique(name: Seq<char>, j: int, i: int)
    requires
        0 <= j <= name.len(),
        0 <= i <= name.len(),
        encode_utf8(name.subrange(j, name.len() as int)).len() >= 3,
        j < name.len() ==> encode_utf8(name.subrange(j + 1, name.len() as int)).len() < 3,
        cuts_three_bytes(name, i),
    ensures
        i == j,
{
    if i > j {
        lemma_bytes_decrease(name, j + 1, i);
    } else if i < j {
        lemma_bytes_decrease(name, i, j);
    }
}

/// Cutting later never leaves more bytes, and cutting strictly later leaves fewer.
proof fn lemma_bytes_decrease(name: Seq<char>, a: int, b: int)
    requires
        0 <= a <= b <= name.len(),
    ensures
        encode_utf8(name.subrange(b, name.len() as int)).len() <= encode_utf8(name.subrange(a, name.len() as int)).len(),
        a < b ==> encode_utf8(name.subrange(b, name.len() as int)).len() < encode_utf8(name.subrange(a, name.len() as int)).len(),
    decreases b - a,
{
    if a < b {
        lemma_encode_step(name, a);
        lemma_bytes_decrease(name, a + 1, b);
    }
}

/// The path of the shared library built from the source file `source_path` on
/// Linux: the same directory, the file name with `lib` before it and `.so` in
/// place of its last three bytes.
pub fn shared_lib_path(source_path: &str) -> (p: String)
    requires
        exists|j: int| cuts_three_bytes(last_component(source_path@), j),
    ensures
        forall|j: int| cuts_three_bytes(last_component(source_path@), j) ==> p@ == shared_lib_of(source_path@, j),
{
    let t = chars_of(source_path);
    let n = t.len();
    let mut k = n;
    while k > 0 && t[k - 1] != '/'
        invariant
            k <= n,
            n == t@.len(),
            after_last_slash(t@, n as int) == after_last_slash(t@, k as int),
        decreases k,
    {
        k = k - 1;
    }
    let ghost name = last_component(t@);
    assert(name =~= t@.subrange(k as int, n as int));
    let mut j = n;
    let mut sum: usize = 0;
    while sum < 3 && j > k
        invariant
            k <= j <= n,
            n == t@.len(),
            name == t@.subrange(k as int, n as int),
            sum == encode_utf8(name.subrange(j - k, name.len() as int)).len(),
            sum <= 6,
            j < n ==> encode_utf8(name.subrange(j - k + 1, name.len() as int)).len() < 3,
        decreases j,
    {
        j = j - 1;
        let w = char_utf8_len(t[j]);
        proof {
            assert(name[j - k] == t@[j as int]);
            lemma_encode_step(name, j - k);
        }
        sum = sum + w;
    }
    proof {
        let i = choose|i: int| cuts_three_bytes(name, i);
        if sum < 3 {
            assert(j == k);
            lemma_bytes_decrease(name, 0, i);
            assert(name.subrange(0, name.len() as int) =~= name);
        }
        lemma_cut_unique(name, j - k, i);
    }
    let mut dir: Vec<char> = Vec::new();
    let mut i: usize = 0;
    while i < k
        invariant
            i <= k <= n,
            n == t@.len(),
            dir@ == t@.subrange(0, i as int),
        decreases k - i,
    {
        dir.push(t[i]);
        i = i + 1;
        assert(dir@ =~= t@.subrange(0, i as int));
    }
    let mut stem: Vec<char> = Vec::new();
    let mut m: usize = k;
    while m < j
        invariant
            k <= m <= j <= n,
            n == t@.len(),
            stem@ == t@.subrange(k as int, m as int),
        decreases j - m,
    {
        stem.push(t[m]);
        m = m + 1;
        assert(stem@ =~= t@.subrange(k as int, m as int));
    }
    let dir_s = string_from_chars(&dir);
    let stem_s = string_from_chars(&stem);
    let p = dir_s.concat("lib").concat(stem_s.as_str()).concat(".so");
    proof {
        assert forall|jj: int| cuts_three_bytes(last_component(source_path@), jj) implies p@ == shared_lib_of(source_path@, jj) by {
            lemma_cut_unique(name, j - k, jj);
            assert(name.subrange(0, jj) =~= stem@);
        }
    }
    p
}

/// For a source path whose directory part is its first `k` characters (empty, or
/// ending in `/`, with no `/` after it) and whose file name keeps `j` characters
/// once its last three bytes are cut, the library path is that directory part, then
/// `lib`, then those `j` characters, then `.so`, whatever the file name begins with.
pub proof fn lemma_shared_lib_path_shape(path: Seq<char>, k: int, j: int)
    requires
        0 <= k <= path.len(),
        k == 0 || path[k - 1] == '/',
        forall|m: int| k <= m < path.len() ==> path[m] != '/',
        0 <= j,
        k + j <= path.len(),
        encode_utf8(path.subrange(k + j, path.len() as int)).len() == 3,
    ensures
        last_component(path) == path.subrange(k, path.len() as int),
        cuts_three_bytes(last_component(path), j),
        shared_lib_of(path, j) == path.subrange(0, k) + seq!['l', 'i', 'b'] + path.subrange(k, k + j)
            + seq!['.', 's', 'o'],
        shared_lib_of(path, j).len() == k + 3 + j + 3,
{
    reveal_strlit("lib");
    reveal_strlit(".so");
    let n = path.len() as int;
    lemma_after_last_slash(path, n);
    let a = after_last_slash(path, n);
    if a < k {
        assert(path[k - 1] == '/');
    }
    if a > k {
        assert(path[a - 1] == '/');
    }
    assert(a == k);
    let name = last_component(path);
    assert(name.subrange(j, name.len() as int) =~= path.subrange(k + j, n));
    assert(name.subrange(0, j) =~= path.subrange(k, k + j));
    assert("lib"@ =~= seq!['l', 'i', 'b']);
    assert(".so"@ =~= seq!['.', 's', 'o']);
}

} // verus!
