//! Validation of a collected directory listing, pack-side.
use vstd::prelude::*;
use crate::errors::InputError;
use crate::pak::{FileInfo, DEFAULT_FILE_TIME};

verus! {

/// Two entries share one virtual name, compared case-sensitively.
pub open spec fn has_duplicate_name(names: Seq<Seq<char>>) -> bool {
    exists|i: int, j: int| 0 <= i < j < names.len() && names[i] == names[j]
}

/// Some file is larger than the 32-bit size ceiling.
pub open spec fn has_oversized_file(sizes: Seq<u64>) -> bool {
    exists|i: int| 0 <= i < sizes.len() && sizes[i] > u32::MAX
}

/// Turn a collected listing of (virtual name, byte size) pairs, in
/// filesystem enumeration order, into the records the packer writes.
/// An empty listing, a duplicated name, and a file over the 32-bit size
/// ceiling are refused, in that order of precedence; a file of exactly
/// `u32::MAX` bytes is accepted.
pub fn build_file_infos(names: &Vec<String>, sizes: &Vec<u64>) -> (r: Result<
    Vec<FileInfo>,
    InputError,
>)
    requires
        names@.len() == sizes@.len(),
    ensures
        ({
            let nviews = names@.map_values(|s: String| s@);
            if names@.len() == 0 {
                r matches Err(e) && e == InputError::EmptyInput
            } else if has_duplicate_name(nviews) {
                r matches Err(e) && e == InputError::DuplicateName
            } else if has_oversized_file(sizes@) {
                r matches Err(e) && e == InputError::FileTooLarge
            } else {
                r matches Ok(v) && v@.len() == names@.len() && (forall|i: int|
                    0 <= i < v@.len() ==> (#[trigger] v@[i]).file_name@ == nviews[i] && v@[i].z_size
                        == sizes@[i] as u32 && v@[i]._size == sizes@[i] as u32 && v@[i]._file_time
                        == DEFAULT_FILE_TIME)
            }
        }),
{
    let ghost nviews = names@.map_values(|s: String| s@);
    let n = names.len();
    if n == 0 {
        return Err(InputError::EmptyInput);
    }

    let mut i: usize = 1;
    while i < n
        invariant
            n == names@.len(),
            nviews == names@.map_values(|s: String| s@),
            1 <= i <= n,
            forall|a: int, b: int| 0 <= a < b < i ==> nviews[a] != nviews[b],
        decreases n - i,
    {
        let mut j: usize = 0;
        while j < i
            invariant
                n == names@.len(),
                nviews == names@.map_values(|s: String| s@),
                j <= i < n,
                forall|b: int| 0 <= b < j ==> nviews[b] != nviews[i as int],
            decreases i - j,
        {
            if names[j] == names[i] {
                proof {
                    assert(0 <= j < i < nviews.len() && nviews[j as int] == nviews[i as int]);
                    assert(has_duplicate_name(nviews));
                }
                return Err(InputError::DuplicateName);
            }
            j = j + 1;
        }
        i = i + 1;
    }
    assert(!has_duplicate_name(nviews));

    let mut k: usize = 0;
    while k < n
        invariant
            n == sizes@.len() == names@.len(),
            n >= 1,
            nviews == names@.map_values(|s: String| s@),
            !has_duplicate_name(nviews),
            k <= n,
            forall|a: int| 0 <= a < k ==> sizes@[a] <= u32::MAX,
        decreases n - k,
    {
        if sizes[k] > u32::MAX as u64 {
            proof {
                assert(0 <= k < sizes@.len() && sizes@[k as int] > u32::MAX);
                assert(has_oversized_file(sizes@));
            }
            return Err(InputError::FileTooLarge);
        }
        k = k + 1;
    }
    assert(!has_oversized_file(sizes@));

    let mut result: Vec<FileInfo> = Vec::new();
    let mut m: usize = 0;
    while m < n
        invariant
            n == names@.len() == sizes@.len(),
            nviews == names@.map_values(|s: String| s@),
            m <= n,
            forall|a: int| 0 <= a < n ==> sizes@[a] <= u32::MAX,
            result@.len() == m,
            forall|a: int|
                0 <= a < m ==> (#[trigger] result@[a]).file_name@ == nviews[a] && result@[a].z_size
                    == sizes@[a] as u32 && result@[a]._size == sizes@[a] as u32
                    && result@[a]._file_time == DEFAULT_FILE_TIME,
        decreases n - m,
    {
        let sz = sizes[m] as u32;
        result.push(
            FileInfo {
                file_name: names[m].clone(),
                z_size: sz,
                _size: sz,
                _file_time: DEFAULT_FILE_TIME,
            },
        );
        m = m + 1;
    }
    Ok(result)
}

} // verus!
