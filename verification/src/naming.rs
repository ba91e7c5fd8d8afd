//! File bookkeeping rules: which output targets a run produces, and what
//! the output file next to a source image is called.

use crate::args::TargetError;
use crate::text::dec_rep;
use crate::text::num_to_string;
use crate::text::replace_token;
use crate::text::replace_z;
use vstd::prelude::*;
use vstd::string::StringExecFns;

verus! {

/// Matches each depth level with a target file. One file for one grid is
/// taken as it is; a single file for several grids is a template, written
/// once per level with `"$z"` replaced by the one-based level number; one
/// file per grid is taken file by file. Any other combination is refused.
pub fn resolve_files(n_grids: usize, files: Vec<String>) -> (r: Result<Vec<String>, TargetError>)
    ensures
        files@.len() == 1 && n_grids == 1 ==> (r matches Ok(v) && v@ == files@),
        files@.len() == 1 && n_grids != 1 ==> (r matches Ok(v) && v@.len() == n_grids && forall|
            i: int,
        |
            0 <= i < n_grids ==> (#[trigger] v@[i])@ == replace_token(
                files@[0]@,
                dec_rep((i + 1) as nat),
            )),
        files@.len() != 1 && files@.len() == n_grids ==> (r matches Ok(v) && v@ == files@),
        files@.len() != 1 && files@.len() != n_grids ==> (r matches Err(e) && e
            == TargetError::CountMismatch),
{
    if files.len() == 1 {
        if n_grids == 1 {
            return Ok(files);
        }
        let mut v: Vec<String> = Vec::new();
        let mut k: usize = 0;
        while k < n_grids
            invariant
                k <= n_grids,
                v@.len() == k,
                files@.len() == 1,
                forall|i: int|
                    0 <= i < k ==> (#[trigger] v@[i])@ == replace_token(
                        files@[0]@,
                        dec_rep((i + 1) as nat),
                    ),
            decreases n_grids - k,
        {
            let z = num_to_string(k + 1);
            let s = replace_z(files[0].as_str(), z.as_str());
            v.push(s);
            k = k + 1;
        }
        Ok(v)
    } else if files.len() == n_grids {
        Ok(files)
    } else {
        Err(TargetError::CountMismatch)
    }
}

/// The name of the output written next to a source image whose file stem
/// is `stem`.
pub fn derive_output_name(stem: &str) -> (r: String)
    ensures
        r@ == stem@ + ".lighting.png"@,
{
    let mut out = stem.to_owned();
    out.append(".lighting.png");
    out
}

/// Law: the derived output name never names the source file itself,
/// whether the source name is the bare stem or the stem with a dot and an
/// extension (an extension holds no dot).
pub proof fn lemma_output_name_fresh(stem: Seq<char>, ext: Seq<char>)
    requires
        forall|k: int| 0 <= k < ext.len() ==> ext[k] != '.',
    ensures
        stem + ".lighting.png"@ != stem,
        stem + ".lighting.png"@ != stem + "."@ + ext,
{
    reveal_strlit(".lighting.png");
    reveal_strlit(".");
    assert((stem + ".lighting.png"@).len() == stem.len() + 13);
    if stem + ".lighting.png"@ =~= stem + "."@ + ext {
        assert(ext.len() == 12);
        assert((stem + "."@ + ext)[stem.len() as int + 9] == ext[8]);
        assert((stem + ".lighting.png"@)[stem.len() as int + 9] == '.');
        assert(false);
    }
}

} // verus!
