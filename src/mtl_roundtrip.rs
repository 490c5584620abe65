//! Writing a material library and reading the text back gives the same materials.

use vstd::prelude::*;

use crate::mtl::{
    apply, bare_material, f32_arg, flush, i32_arg, is_material_cmd, mtl_parse,
    mtl_run, mtl_step, string_arg, vec_arg, MaterialView, MtlErrorView, MtlState,
};
use crate::roundtrip::{
    all_free, free_of, is_name, is_word, joined, lemma_all_free_concat, lemma_dec,
    lemma_float_word, lemma_free_ws, lemma_joined_append,
    lemma_joined_one, lemma_lines_joined, lemma_name_words, lemma_numeral_word,
    lemma_prefixed_free, lemma_words_are_words, lemma_words_keyword,
    lemma_words_spaced, lemma_words_word, lemma_spaced_free,
};
use crate::text::{int_within, is_digit, is_float_lit, is_ws, lines_of, words_of};
use crate::write::{
    colors_text, dec, illum_text, int_text, maps_text, material_text, materials_text, opt_line,
    opt_vec_line, scalars_text, spaced,
};

verus! {

pub proof fn lemma_mtl_keywords()
    ensures
        "newmtl"@ == seq!['n', 'e', 'w', 'm', 't', 'l'],
        "Ka"@ == seq!['K', 'a'],
        "Kd"@ == seq!['K', 'd'],
        "Ks"@ == seq!['K', 's'],
        "Ke"@ == seq!['K', 'e'],
        "Ns"@ == seq!['N', 's'],
        "Ni"@ == seq!['N', 'i'],
        "Km"@ == seq!['K', 'm'],
        "d"@ == seq!['d'],
        "Tr"@ == seq!['T', 'r'],
        "Tf"@ == seq!['T', 'f'],
        "illum"@ == seq!['i', 'l', 'l', 'u', 'm'],
        "map_Ka"@ == seq!['m', 'a', 'p', '_', 'K', 'a'],
        "map_Kd"@ == seq!['m', 'a', 'p', '_', 'K', 'd'],
        "map_Ks"@ == seq!['m', 'a', 'p', '_', 'K', 's'],
        "map_d"@ == seq!['m', 'a', 'p', '_', 'd'],
        "map_refl"@ == seq!['m', 'a', 'p', '_', 'r', 'e', 'f', 'l'],
        "refl"@ == seq!['r', 'e', 'f', 'l'],
        "map_bump"@ == seq!['m', 'a', 'p', '_', 'b', 'u', 'm', 'p'],
        "map_Bump"@ == seq!['m', 'a', 'p', '_', 'B', 'u', 'm', 'p'],
        "bump"@ == seq!['b', 'u', 'm', 'p'],
        "newmtl "@ == "newmtl"@ + " "@,
        "illum "@ == "illum"@ + " "@,
        "-"@ == seq!['-'],
{
    reveal_strlit("newmtl");
    reveal_strlit("Ka");
    reveal_strlit("Kd");
    reveal_strlit("Ks");
    reveal_strlit("Ke");
    reveal_strlit("Ns");
    reveal_strlit("Ni");
    reveal_strlit("Km");
    reveal_strlit("d");
    reveal_strlit("Tr");
    reveal_strlit("Tf");
    reveal_strlit("illum");
    reveal_strlit("map_Ka");
    reveal_strlit("map_Kd");
    reveal_strlit("map_Ks");
    reveal_strlit("map_d");
    reveal_strlit("map_refl");
    reveal_strlit("refl");
    reveal_strlit("map_bump");
    reveal_strlit("map_Bump");
    reveal_strlit("bump");
    reveal_strlit(" ");
    reveal_strlit("newmtl ");
    reveal_strlit("illum ");
    reveal_strlit("-");
    assert("newmtl"@ =~= seq!['n', 'e', 'w', 'm', 't', 'l']);
    assert("Ka"@ =~= seq!['K', 'a']);
    assert("Kd"@ =~= seq!['K', 'd']);
    assert("Ks"@ =~= seq!['K', 's']);
    assert("Ke"@ =~= seq!['K', 'e']);
    assert("Ns"@ =~= seq!['N', 's']);
    assert("Ni"@ =~= seq!['N', 'i']);
    assert("Km"@ =~= seq!['K', 'm']);
    assert("d"@ =~= seq!['d']);
    assert("Tr"@ =~= seq!['T', 'r']);
    assert("Tf"@ =~= seq!['T', 'f']);
    assert("illum"@ =~= seq!['i', 'l', 'l', 'u', 'm']);
    assert("map_Ka"@ =~= seq!['m', 'a', 'p', '_', 'K', 'a']);
    assert("map_Kd"@ =~= seq!['m', 'a', 'p', '_', 'K', 'd']);
    assert("map_Ks"@ =~= seq!['m', 'a', 'p', '_', 'K', 's']);
    assert("map_d"@ =~= seq!['m', 'a', 'p', '_', 'd']);
    assert("map_refl"@ =~= seq!['m', 'a', 'p', '_', 'r', 'e', 'f', 'l']);
    assert("refl"@ =~= seq!['r', 'e', 'f', 'l']);
    assert("map_bump"@ =~= seq!['m', 'a', 'p', '_', 'b', 'u', 'm', 'p']);
    assert("map_Bump"@ =~= seq!['m', 'a', 'p', '_', 'B', 'u', 'm', 'p']);
    assert("bump"@ =~= seq!['b', 'u', 'm', 'p']);
    assert("newmtl "@ =~= "newmtl"@ + " "@);
    assert("illum "@ =~= "illum"@ + " "@);
    assert("-"@ =~= seq!['-']);
}

pub proof fn lemma_mtl_keywords_distinct()
    ensures
        "Ka"@ != "newmtl"@,
        "Kd"@ != "newmtl"@,
        "Kd"@ != "Ka"@,
        "Ks"@ != "newmtl"@,
        "Ks"@ != "Ka"@,
        "Ks"@ != "Kd"@,
        "Ke"@ != "newmtl"@,
        "Ke"@ != "Ka"@,
        "Ke"@ != "Kd"@,
        "Ke"@ != "Ks"@,
        "Ns"@ != "newmtl"@,
        "Ns"@ != "Ka"@,
        "Ns"@ != "Kd"@,
        "Ns"@ != "Ks"@,
        "Ns"@ != "Ke"@,
        "Ni"@ != "newmtl"@,
        "Ni"@ != "Ka"@,
        "Ni"@ != "Kd"@,
        "Ni"@ != "Ks"@,
        "Ni"@ != "Ke"@,
        "Ni"@ != "Ns"@,
        "Km"@ != "newmtl"@,
        "Km"@ != "Ka"@,
        "Km"@ != "Kd"@,
        "Km"@ != "Ks"@,
        "Km"@ != "Ke"@,
        "Km"@ != "Ns"@,
        "Km"@ != "Ni"@,
        "d"@ != "newmtl"@,
        "d"@ != "Ka"@,
        "d"@ != "Kd"@,
        "d"@ != "Ks"@,
        "d"@ != "Ke"@,
        "d"@ != "Ns"@,
        "d"@ != "Ni"@,
        "d"@ != "Km"@,
        "Tr"@ != "newmtl"@,
        "Tr"@ != "Ka"@,
        "Tr"@ != "Kd"@,
        "Tr"@ != "Ks"@,
        "Tr"@ != "Ke"@,
        "Tr"@ != "Ns"@,
        "Tr"@ != "Ni"@,
        "Tr"@ != "Km"@,
        "Tr"@ != "d"@,
        "Tf"@ != "newmtl"@,
        "Tf"@ != "Ka"@,
        "Tf"@ != "Kd"@,
        "Tf"@ != "Ks"@,
        "Tf"@ != "Ke"@,
        "Tf"@ != "Ns"@,
        "Tf"@ != "Ni"@,
        "Tf"@ != "Km"@,
        "Tf"@ != "d"@,
        "Tf"@ != "Tr"@,
        "illum"@ != "newmtl"@,
        "illum"@ != "Ka"@,
        "illum"@ != "Kd"@,
        "illum"@ != "Ks"@,
        "illum"@ != "Ke"@,
        "illum"@ != "Ns"@,
        "illum"@ != "Ni"@,
        "illum"@ != "Km"@,
        "illum"@ != "d"@,
        "illum"@ != "Tr"@,
        "illum"@ != "Tf"@,
        "map_Ka"@ != "newmtl"@,
        "map_Ka"@ != "Ka"@,
        "map_Ka"@ != "Kd"@,
        "map_Ka"@ != "Ks"@,
        "map_Ka"@ != "Ke"@,
        "map_Ka"@ != "Ns"@,
        "map_Ka"@ != "Ni"@,
        "map_Ka"@ != "Km"@,
        "map_Ka"@ != "d"@,
        "map_Ka"@ != "Tr"@,
        "map_Ka"@ != "Tf"@,
        "map_Ka"@ != "illum"@,
        "map_Kd"@ != "newmtl"@,
        "map_Kd"@ != "Ka"@,
        "map_Kd"@ != "Kd"@,
        "map_Kd"@ != "Ks"@,
        "map_Kd"@ != "Ke"@,
        "map_Kd"@ != "Ns"@,
        "map_Kd"@ != "Ni"@,
        "map_Kd"@ != "Km"@,
        "map_Kd"@ != "d"@,
        "map_Kd"@ != "Tr"@,
        "map_Kd"@ != "Tf"@,
        "map_Kd"@ != "illum"@,
        "map_Kd"@ != "map_Ka"@,
        "map_Ks"@ != "newmtl"@,
        "map_Ks"@ != "Ka"@,
        "map_Ks"@ != "Kd"@,
        "map_Ks"@ != "Ks"@,
        "map_Ks"@ != "Ke"@,
        "map_Ks"@ != "Ns"@,
        "map_Ks"@ != "Ni"@,
        "map_Ks"@ != "Km"@,
        "map_Ks"@ != "d"@,
        "map_Ks"@ != "Tr"@,
        "map_Ks"@ != "Tf"@,
        "map_Ks"@ != "illum"@,
        "map_Ks"@ != "map_Ka"@,
        "map_Ks"@ != "map_Kd"@,
        "map_d"@ != "newmtl"@,
        "map_d"@ != "Ka"@,
        "map_d"@ != "Kd"@,
        "map_d"@ != "Ks"@,
        "map_d"@ != "Ke"@,
        "map_d"@ != "Ns"@,
        "map_d"@ != "Ni"@,
        "map_d"@ != "Km"@,
        "map_d"@ != "d"@,
        "map_d"@ != "Tr"@,
        "map_d"@ != "Tf"@,
        "map_d"@ != "illum"@,
        "map_d"@ != "map_Ka"@,
        "map_d"@ != "map_Kd"@,
        "map_d"@ != "map_Ks"@,
        "map_refl"@ != "newmtl"@,
        "map_refl"@ != "Ka"@,
        "map_refl"@ != "Kd"@,
        "map_refl"@ != "Ks"@,
        "map_refl"@ != "Ke"@,
        "map_refl"@ != "Ns"@,
        "map_refl"@ != "Ni"@,
        "map_refl"@ != "Km"@,
        "map_refl"@ != "d"@,
        "map_refl"@ != "Tr"@,
        "map_refl"@ != "Tf"@,
        "map_refl"@ != "illum"@,
        "map_refl"@ != "map_Ka"@,
        "map_refl"@ != "map_Kd"@,
        "map_refl"@ != "map_Ks"@,
        "map_refl"@ != "map_d"@,
        "refl"@ != "newmtl"@,
        "refl"@ != "Ka"@,
        "refl"@ != "Kd"@,
        "refl"@ != "Ks"@,
        "refl"@ != "Ke"@,
        "refl"@ != "Ns"@,
        "refl"@ != "Ni"@,
        "refl"@ != "Km"@,
        "refl"@ != "d"@,
        "refl"@ != "Tr"@,
        "refl"@ != "Tf"@,
        "refl"@ != "illum"@,
        "refl"@ != "map_Ka"@,
        "refl"@ != "map_Kd"@,
        "refl"@ != "map_Ks"@,
        "refl"@ != "map_d"@,
        "refl"@ != "map_refl"@,
        "map_bump"@ != "newmtl"@,
        "map_bump"@ != "Ka"@,
        "map_bump"@ != "Kd"@,
        "map_bump"@ != "Ks"@,
        "map_bump"@ != "Ke"@,
        "map_bump"@ != "Ns"@,
        "map_bump"@ != "Ni"@,
        "map_bump"@ != "Km"@,
        "map_bump"@ != "d"@,
        "map_bump"@ != "Tr"@,
        "map_bump"@ != "Tf"@,
        "map_bump"@ != "illum"@,
        "map_bump"@ != "map_Ka"@,
        "map_bump"@ != "map_Kd"@,
        "map_bump"@ != "map_Ks"@,
        "map_bump"@ != "map_d"@,
        "map_bump"@ != "map_refl"@,
        "map_bump"@ != "refl"@,
        "map_Bump"@ != "newmtl"@,
        "map_Bump"@ != "Ka"@,
        "map_Bump"@ != "Kd"@,
        "map_Bump"@ != "Ks"@,
        "map_Bump"@ != "Ke"@,
        "map_Bump"@ != "Ns"@,
        "map_Bump"@ != "Ni"@,
        "map_Bump"@ != "Km"@,
        "map_Bump"@ != "d"@,
        "map_Bump"@ != "Tr"@,
        "map_Bump"@ != "Tf"@,
        "map_Bump"@ != "illum"@,
        "map_Bump"@ != "map_Ka"@,
        "map_Bump"@ != "map_Kd"@,
        "map_Bump"@ != "map_Ks"@,
        "map_Bump"@ != "map_d"@,
        "map_Bump"@ != "map_refl"@,
        "map_Bump"@ != "refl"@,
        "map_Bump"@ != "map_bump"@,
        "bump"@ != "newmtl"@,
        "bump"@ != "Ka"@,
        "bump"@ != "Kd"@,
        "bump"@ != "Ks"@,
        "bump"@ != "Ke"@,
        "bump"@ != "Ns"@,
        "bump"@ != "Ni"@,
        "bump"@ != "Km"@,
        "bump"@ != "d"@,
        "bump"@ != "Tr"@,
        "bump"@ != "Tf"@,
        "bump"@ != "illum"@,
        "bump"@ != "map_Ka"@,
        "bump"@ != "map_Kd"@,
        "bump"@ != "map_Ks"@,
        "bump"@ != "map_d"@,
        "bump"@ != "map_refl"@,
        "bump"@ != "refl"@,
        "bump"@ != "map_bump"@,
        "bump"@ != "map_Bump"@,
{
    lemma_mtl_keywords();
    assert("Ka"@.len() != "newmtl"@.len());
    assert("Kd"@.len() != "newmtl"@.len());
    assert("Kd"@[1] != "Ka"@[1]);
    assert("Ks"@.len() != "newmtl"@.len());
    assert("Ks"@[1] != "Ka"@[1]);
    assert("Ks"@[1] != "Kd"@[1]);
    assert("Ke"@.len() != "newmtl"@.len());
    assert("Ke"@[1] != "Ka"@[1]);
    assert("Ke"@[1] != "Kd"@[1]);
    assert("Ke"@[1] != "Ks"@[1]);
    assert("Ns"@.len() != "newmtl"@.len());
    assert("Ns"@[0] != "Ka"@[0]);
    assert("Ns"@[0] != "Kd"@[0]);
    assert("Ns"@[0] != "Ks"@[0]);
    assert("Ns"@[0] != "Ke"@[0]);
    assert("Ni"@.len() != "newmtl"@.len());
    assert("Ni"@[0] != "Ka"@[0]);
    assert("Ni"@[0] != "Kd"@[0]);
    assert("Ni"@[0] != "Ks"@[0]);
    assert("Ni"@[0] != "Ke"@[0]);
    assert("Ni"@[1] != "Ns"@[1]);
    assert("Km"@.len() != "newmtl"@.len());
    assert("Km"@[1] != "Ka"@[1]);
    assert("Km"@[1] != "Kd"@[1]);
    assert("Km"@[1] != "Ks"@[1]);
    assert("Km"@[1] != "Ke"@[1]);
    assert("Km"@[0] != "Ns"@[0]);
    assert("Km"@[0] != "Ni"@[0]);
    assert("d"@.len() != "newmtl"@.len());
    assert("d"@.len() != "Ka"@.len());
    assert("d"@.len() != "Kd"@.len());
    assert("d"@.len() != "Ks"@.len());
    assert("d"@.len() != "Ke"@.len());
    assert("d"@.len() != "Ns"@.len());
    assert("d"@.len() != "Ni"@.len());
    assert("d"@.len() != "Km"@.len());
    assert("Tr"@.len() != "newmtl"@.len());
    assert("Tr"@[0] != "Ka"@[0]);
    assert("Tr"@[0] != "Kd"@[0]);
    assert("Tr"@[0] != "Ks"@[0]);
    assert("Tr"@[0] != "Ke"@[0]);
    assert("Tr"@[0] != "Ns"@[0]);
    assert("Tr"@[0] != "Ni"@[0]);
    assert("Tr"@[0] != "Km"@[0]);
    assert("Tr"@.len() != "d"@.len());
    assert("Tf"@.len() != "newmtl"@.len());
    assert("Tf"@[0] != "Ka"@[0]);
    assert("Tf"@[0] != "Kd"@[0]);
    assert("Tf"@[0] != "Ks"@[0]);
    assert("Tf"@[0] != "Ke"@[0]);
    assert("Tf"@[0] != "Ns"@[0]);
    assert("Tf"@[0] != "Ni"@[0]);
    assert("Tf"@[0] != "Km"@[0]);
    assert("Tf"@.len() != "d"@.len());
    assert("Tf"@[1] != "Tr"@[1]);
    assert("illum"@.len() != "newmtl"@.len());
    assert("illum"@.len() != "Ka"@.len());
    assert("illum"@.len() != "Kd"@.len());
    assert("illum"@.len() != "Ks"@.len());
    assert("illum"@.len() != "Ke"@.len());
    assert("illum"@.len() != "Ns"@.len());
    assert("illum"@.len() != "Ni"@.len());
    assert("illum"@.len() != "Km"@.len());
    assert("illum"@.len() != "d"@.len());
    assert("illum"@.len() != "Tr"@.len());
    assert("illum"@.len() != "Tf"@.len());
    assert("map_Ka"@[0] != "newmtl"@[0]);
    assert("map_Ka"@.len() != "Ka"@.len());
    assert("map_Ka"@.len() != "Kd"@.len());
    assert("map_Ka"@.len() != "Ks"@.len());
    assert("map_Ka"@.len() != "Ke"@.len());
    assert("map_Ka"@.len() != "Ns"@.len());
    assert("map_Ka"@.len() != "Ni"@.len());
    assert("map_Ka"@.len() != "Km"@.len());
    assert("map_Ka"@.len() != "d"@.len());
    assert("map_Ka"@.len() != "Tr"@.len());
    assert("map_Ka"@.len() != "Tf"@.len());
    assert("map_Ka"@.len() != "illum"@.len());
    assert("map_Kd"@[0] != "newmtl"@[0]);
    assert("map_Kd"@.len() != "Ka"@.len());
    assert("map_Kd"@.len() != "Kd"@.len());
    assert("map_Kd"@.len() != "Ks"@.len());
    assert("map_Kd"@.len() != "Ke"@.len());
    assert("map_Kd"@.len() != "Ns"@.len());
    assert("map_Kd"@.len() != "Ni"@.len());
    assert("map_Kd"@.len() != "Km"@.len());
    assert("map_Kd"@.len() != "d"@.len());
    assert("map_Kd"@.len() != "Tr"@.len());
    assert("map_Kd"@.len() != "Tf"@.len());
    assert("map_Kd"@.len() != "illum"@.len());
    assert("map_Kd"@[5] != "map_Ka"@[5]);
    assert("map_Ks"@[0] != "newmtl"@[0]);
    assert("map_Ks"@.len() != "Ka"@.len());
    assert("map_Ks"@.len() != "Kd"@.len());
    assert("map_Ks"@.len() != "Ks"@.len());
    assert("map_Ks"@.len() != "Ke"@.len());
    assert("map_Ks"@.len() != "Ns"@.len());
    assert("map_Ks"@.len() != "Ni"@.len());
    assert("map_Ks"@.len() != "Km"@.len());
    assert("map_Ks"@.len() != "d"@.len());
    assert("map_Ks"@.len() != "Tr"@.len());
    assert("map_Ks"@.len() != "Tf"@.len());
    assert("map_Ks"@.len() != "illum"@.len());
    assert("map_Ks"@[5] != "map_Ka"@[5]);
    assert("map_Ks"@[5] != "map_Kd"@[5]);
    assert("map_d"@.len() != "newmtl"@.len());
    assert("map_d"@.len() != "Ka"@.len());
    assert("map_d"@.len() != "Kd"@.len());
    assert("map_d"@.len() != "Ks"@.len());
    assert("map_d"@.len() != "Ke"@.len());
    assert("map_d"@.len() != "Ns"@.len());
    assert("map_d"@.len() != "Ni"@.len());
    assert("map_d"@.len() != "Km"@.len());
    assert("map_d"@.len() != "d"@.len());
    assert("map_d"@.len() != "Tr"@.len());
    assert("map_d"@.len() != "Tf"@.len());
    assert("map_d"@[0] != "illum"@[0]);
    assert("map_d"@.len() != "map_Ka"@.len());
    assert("map_d"@.len() != "map_Kd"@.len());
    assert("map_d"@.len() != "map_Ks"@.len());
    assert("map_refl"@.len() != "newmtl"@.len());
    assert("map_refl"@.len() != "Ka"@.len());
    assert("map_refl"@.len() != "Kd"@.len());
    assert("map_refl"@.len() != "Ks"@.len());
    assert("map_refl"@.len() != "Ke"@.len());
    assert("map_refl"@.len() != "Ns"@.len());
    assert("map_refl"@.len() != "Ni"@.len());
    assert("map_refl"@.len() != "Km"@.len());
    assert("map_refl"@.len() != "d"@.len());
    assert("map_refl"@.len() != "Tr"@.len());
    assert("map_refl"@.len() != "Tf"@.len());
    assert("map_refl"@.len() != "illum"@.len());
    assert("map_refl"@.len() != "map_Ka"@.len());
    assert("map_refl"@.len() != "map_Kd"@.len());
    assert("map_refl"@.len() != "map_Ks"@.len());
    assert("map_refl"@.len() != "map_d"@.len());
    assert("refl"@.len() != "newmtl"@.len());
    assert("refl"@.len() != "Ka"@.len());
    assert("refl"@.len() != "Kd"@.len());
    assert("refl"@.len() != "Ks"@.len());
    assert("refl"@.len() != "Ke"@.len());
    assert("refl"@.len() != "Ns"@.len());
    assert("refl"@.len() != "Ni"@.len());
    assert("refl"@.len() != "Km"@.len());
    assert("refl"@.len() != "d"@.len());
    assert("refl"@.len() != "Tr"@.len());
    assert("refl"@.len() != "Tf"@.len());
    assert("refl"@.len() != "illum"@.len());
    assert("refl"@.len() != "map_Ka"@.len());
    assert("refl"@.len() != "map_Kd"@.len());
    assert("refl"@.len() != "map_Ks"@.len());
    assert("refl"@.len() != "map_d"@.len());
    assert("refl"@.len() != "map_refl"@.len());
    assert("map_bump"@.len() != "newmtl"@.len());
    assert("map_bump"@.len() != "Ka"@.len());
    assert("map_bump"@.len() != "Kd"@.len());
    assert("map_bump"@.len() != "Ks"@.len());
    assert("map_bump"@.len() != "Ke"@.len());
    assert("map_bump"@.len() != "Ns"@.len());
    assert("map_bump"@.len() != "Ni"@.len());
    assert("map_bump"@.len() != "Km"@.len());
    assert("map_bump"@.len() != "d"@.len());
    assert("map_bump"@.len() != "Tr"@.len());
    assert("map_bump"@.len() != "Tf"@.len());
    assert("map_bump"@.len() != "illum"@.len());
    assert("map_bump"@.len() != "map_Ka"@.len());
    assert("map_bump"@.len() != "map_Kd"@.len());
    assert("map_bump"@.len() != "map_Ks"@.len());
    assert("map_bump"@.len() != "map_d"@.len());
    assert("map_bump"@[4] != "map_refl"@[4]);
    assert("map_bump"@.len() != "refl"@.len());
    assert("map_Bump"@.len() != "newmtl"@.len());
    assert("map_Bump"@.len() != "Ka"@.len());
    assert("map_Bump"@.len() != "Kd"@.len());
    assert("map_Bump"@.len() != "Ks"@.len());
    assert("map_Bump"@.len() != "Ke"@.len());
    assert("map_Bump"@.len() != "Ns"@.len());
    assert("map_Bump"@.len() != "Ni"@.len());
    assert("map_Bump"@.len() != "Km"@.len());
    assert("map_Bump"@.len() != "d"@.len());
    assert("map_Bump"@.len() != "Tr"@.len());
    assert("map_Bump"@.len() != "Tf"@.len());
    assert("map_Bump"@.len() != "illum"@.len());
    assert("map_Bump"@.len() != "map_Ka"@.len());
    assert("map_Bump"@.len() != "map_Kd"@.len());
    assert("map_Bump"@.len() != "map_Ks"@.len());
    assert("map_Bump"@.len() != "map_d"@.len());
    assert("map_Bump"@[4] != "map_refl"@[4]);
    assert("map_Bump"@.len() != "refl"@.len());
    assert("map_Bump"@[4] != "map_bump"@[4]);
    assert("bump"@.len() != "newmtl"@.len());
    assert("bump"@.len() != "Ka"@.len());
    assert("bump"@.len() != "Kd"@.len());
    assert("bump"@.len() != "Ks"@.len());
    assert("bump"@.len() != "Ke"@.len());
    assert("bump"@.len() != "Ns"@.len());
    assert("bump"@.len() != "Ni"@.len());
    assert("bump"@.len() != "Km"@.len());
    assert("bump"@.len() != "d"@.len());
    assert("bump"@.len() != "Tr"@.len());
    assert("bump"@.len() != "Tf"@.len());
    assert("bump"@.len() != "illum"@.len());
    assert("bump"@.len() != "map_Ka"@.len());
    assert("bump"@.len() != "map_Kd"@.len());
    assert("bump"@.len() != "map_Ks"@.len());
    assert("bump"@.len() != "map_d"@.len());
    assert("bump"@.len() != "map_refl"@.len());
    assert("bump"@[0] != "refl"@[0]);
    assert("bump"@.len() != "map_bump"@.len());
    assert("bump"@.len() != "map_Bump"@.len());
}

/// The state after the lines `ls` from `st`.
pub open spec fn mtl_steps(st: MtlState, ls: Seq<Seq<char>>) -> Result<MtlState, MtlErrorView>
    decreases ls.len(),
{
    if ls.len() == 0 {
        Ok(st)
    } else {
        match mtl_steps(st, ls.drop_last()) {
            Ok(s) => mtl_step(s, words_of(ls.last())),
            Err(e) => Err(e),
        }
    }
}

proof fn lemma_mtl_run_steps(ls: Seq<Seq<char>>)
    ensures
        mtl_run(ls) == mtl_steps(MtlState { done: Seq::empty(), cur: None }, ls),
    decreases ls.len(),
{
    if ls.len() > 0 {
        lemma_mtl_run_steps(ls.drop_last());
    }
}

proof fn lemma_mtl_steps_append(st: MtlState, a: Seq<Seq<char>>, b: Seq<Seq<char>>)
    ensures
        mtl_steps(st, a + b) == match mtl_steps(st, a) {
            Ok(s) => mtl_steps(s, b),
            Err(e) => Err(e),
        },
    decreases b.len(),
{
    if b.len() == 0 {
        assert(a + b =~= a);
    } else {
        assert((a + b).drop_last() =~= a + b.drop_last());
        lemma_mtl_steps_append(st, a, b.drop_last());
        assert((a + b).last() == b.last());
    }
}

proof fn lemma_mtl_steps_one(st: MtlState, l: Seq<char>)
    ensures
        mtl_steps(st, seq![l]) == mtl_step(st, words_of(l)),
{
    assert(seq![l].drop_last() =~= Seq::<Seq<char>>::empty());
    assert(seq![l].last() == l);
    assert(mtl_steps(st, Seq::<Seq<char>>::empty()) == Ok::<_, MtlErrorView>(st));
}

/// A property line with keyword `kw` and arguments `a` applied to the material being read.
proof fn lemma_prop_step(st: MtlState, kw: Seq<char>, a: Seq<Seq<char>>)
    requires
        st.cur is Some,
        is_material_cmd(kw),
        kw != "newmtl"@,
        apply(st.cur->0, kw, a) is Ok,
    ensures
        mtl_step(st, seq![kw] + a) == Ok::<_, MtlErrorView>(
            MtlState { done: st.done, cur: Some(apply(st.cur->0, kw, a)->Ok_0) },
        ),
{
    let w = seq![kw] + a;
    assert(w[0] == kw);
    assert(w.drop_first() =~= a);
}

pub open spec fn opt_seq(kw: Seq<char>, v: Option<Seq<char>>) -> Seq<Seq<char>> {
    match v {
        Some(x) => seq![kw + " "@ + x],
        None => Seq::empty(),
    }
}

pub open spec fn opt_vec_seq(kw: Seq<char>, v: Option<Seq<Seq<char>>>) -> Seq<Seq<char>> {
    match v {
        Some(x) => seq![kw + spaced(x)],
        None => Seq::empty(),
    }
}

pub open spec fn illum_seq(v: Option<i32>) -> Seq<Seq<char>> {
    match v {
        Some(x) => seq!["illum "@ + int_text(x as int)],
        None => Seq::empty(),
    }
}

proof fn lemma_opt_text(kw: Seq<char>, v: Option<Seq<char>>)
    ensures
        opt_line(kw, v) == joined(opt_seq(kw, v)),
{
    if let Some(x) = v {
        lemma_joined_one(kw + " "@ + x);
        assert(kw + " "@ + x + "\n"@ =~= kw + " "@ + x + "\n"@);
    } else {
        assert(joined(Seq::<Seq<char>>::empty()) == Seq::<char>::empty());
    }
}

proof fn lemma_opt_vec_text(kw: Seq<char>, v: Option<Seq<Seq<char>>>)
    ensures
        opt_vec_line(kw, v) == joined(opt_vec_seq(kw, v)),
{
    if let Some(x) = v {
        lemma_joined_one(kw + spaced(x));
    } else {
        assert(joined(Seq::<Seq<char>>::empty()) == Seq::<char>::empty());
    }
}

proof fn lemma_illum_text(v: Option<i32>)
    ensures
        (match v {
            Some(x) => "illum "@ + int_text(x as int) + "\n"@,
            None => Seq::<char>::empty(),
        }) == joined(illum_seq(v)),
{
    if let Some(x) = v {
        lemma_joined_one("illum "@ + int_text(x as int));
    } else {
        assert(joined(Seq::<Seq<char>>::empty()) == Seq::<char>::empty());
    }
}

/// The text of `v` reads back as `v`.
proof fn lemma_int_text(v: int)
    requires
        i32::MIN <= v <= i32::MAX,
    ensures
        int_within(int_text(v), i32::MIN as int, i32::MAX as int) == Some(v),
        is_word(int_text(v)),
        free_of(int_text(v), '\n'),
{
    lemma_mtl_keywords();
    if v < 0 {
        let d = dec((-v) as nat);
        lemma_dec((-v) as nat);
        lemma_numeral_word(d);
        let t = int_text(v);
        assert(t == seq!['-'] + d);
        assert(t.drop_first() =~= d);
        assert(t[0] == '-');
        assert forall|i: int| 0 <= i < t.len() implies !is_ws(#[trigger] t[i]) by {
            if i > 0 {
                assert(t[i] == d[i - 1]);
            }
        }
        lemma_free_ws(t);
    } else {
        lemma_dec(v as nat);
        lemma_numeral_word(dec(v as nat));
        assert(is_digit(dec(v as nat)[0]));
    }
}

pub open spec fn set_ka(m: MaterialView, v: Option<Seq<Seq<char>>>) -> MaterialView {
    MaterialView { ka: if v is Some { v } else { m.ka }, ..m }
}

proof fn lemma_field_ka(st: MtlState, v: Option<Seq<Seq<char>>>)
    requires
        st.cur is Some,
        v matches Some(x) ==> x.len() == 3 && forall|j: int| 0 <= j < 3 ==> is_float_lit(#[trigger] x[j]),
    ensures
        mtl_steps(st, opt_vec_seq("Ka"@, v)) == Ok::<_, MtlErrorView>(
            MtlState { done: st.done, cur: Some(set_ka(st.cur->0, v)) },
        ),
        all_free(opt_vec_seq("Ka"@, v)),
{
    lemma_mtl_keywords();
    lemma_mtl_keywords_distinct();
    let ls = opt_vec_seq("Ka"@, v);
    match v {
        Some(x) => {
            let l = ls[0];
            assert(ls == seq![l]);
            lemma_mtl_steps_one(st, l);
            assert(is_word("Ka"@));
            assert forall|j: int| 0 <= j < x.len() implies is_word(#[trigger] x[j]) by {
                lemma_float_word(x[j]);
            }
            lemma_words_spaced("Ka"@, x);
            lemma_spaced_free("Ka"@, x);
            assert(x.take(3) =~= x);
            assert(vec_arg(x) == Ok::<_, MtlErrorView>(x));
            lemma_prop_step(st, "Ka"@, x);
        },
        None => {
            assert(ls =~= Seq::<Seq<char>>::empty());
        },
    }
}

pub open spec fn set_kd(m: MaterialView, v: Option<Seq<Seq<char>>>) -> MaterialView {
    MaterialView { kd: if v is Some { v } else { m.kd }, ..m }
}

proof fn lemma_field_kd(st: MtlState, v: Option<Seq<Seq<char>>>)
    requires
        st.cur is Some,
        v matches Some(x) ==> x.len() == 3 && forall|j: int| 0 <= j < 3 ==> is_float_lit(#[trigger] x[j]),
    ensures
        mtl_steps(st, opt_vec_seq("Kd"@, v)) == Ok::<_, MtlErrorView>(
            MtlState { done: st.done, cur: Some(set_kd(st.cur->0, v)) },
        ),
        all_free(opt_vec_seq("Kd"@, v)),
{
    lemma_mtl_keywords();
    lemma_mtl_keywords_distinct();
    let ls = opt_vec_seq("Kd"@, v);
    match v {
        Some(x) => {
            let l = ls[0];
            assert(ls == seq![l]);
            lemma_mtl_steps_one(st, l);
            assert(is_word("Kd"@));
            assert forall|j: int| 0 <= j < x.len() implies is_word(#[trigger] x[j]) by {
                lemma_float_word(x[j]);
            }
            lemma_words_spaced("Kd"@, x);
            lemma_spaced_free("Kd"@, x);
            assert(x.take(3) =~= x);
            assert(vec_arg(x) == Ok::<_, MtlErrorView>(x));
            lemma_prop_step(st, "Kd"@, x);
        },
        None => {
            assert(ls =~= Seq::<Seq<char>>::empty());
        },
    }
}

pub open spec fn set_ks(m: MaterialView, v: Option<Seq<Seq<char>>>) -> MaterialView {
    MaterialView { ks: if v is Some { v } else { m.ks }, ..m }
}

proof fn lemma_field_ks(st: MtlState, v: Option<Seq<Seq<char>>>)
    requires
        st.cur is Some,
        v matches Some(x) ==> x.len() == 3 && forall|j: int| 0 <= j < 3 ==> is_float_lit(#[trigger] x[j]),
    ensures
        mtl_steps(st, opt_vec_seq("Ks"@, v)) == Ok::<_, MtlErrorView>(
            MtlState { done: st.done, cur: Some(set_ks(st.cur->0, v)) },
        ),
        all_free(opt_vec_seq("Ks"@, v)),
{
    lemma_mtl_keywords();
    lemma_mtl_keywords_distinct();
    let ls = opt_vec_seq("Ks"@, v);
    match v {
        Some(x) => {
            let l = ls[0];
            assert(ls == seq![l]);
            lemma_mtl_steps_one(st, l);
            assert(is_word("Ks"@));
            assert forall|j: int| 0 <= j < x.len() implies is_word(#[trigger] x[j]) by {
                lemma_float_word(x[j]);
            }
            lemma_words_spaced("Ks"@, x);
            lemma_spaced_free("Ks"@, x);
            assert(x.take(3) =~= x);
            assert(vec_arg(x) == Ok::<_, MtlErrorView>(x));
            lemma_prop_step(st, "Ks"@, x);
        },
        None => {
            assert(ls =~= Seq::<Seq<char>>::empty());
        },
    }
}

pub open spec fn set_ke(m: MaterialView, v: Option<Seq<Seq<char>>>) -> MaterialView {
    MaterialView { ke: if v is Some { v } else { m.ke }, ..m }
}

proof fn lemma_field_ke(st: MtlState, v: Option<Seq<Seq<char>>>)
    requires
        st.cur is Some,
        v matches Some(x) ==> x.len() == 3 && forall|j: int| 0 <= j < 3 ==> is_float_lit(#[trigger] x[j]),
    ensures
        mtl_steps(st, opt_vec_seq("Ke"@, v)) == Ok::<_, MtlErrorView>(
            MtlState { done: st.done, cur: Some(set_ke(st.cur->0, v)) },
        ),
        all_free(opt_vec_seq("Ke"@, v)),
{
    lemma_mtl_keywords();
    lemma_mtl_keywords_distinct();
    let ls = opt_vec_seq("Ke"@, v);
    match v {
        Some(x) => {
            let l = ls[0];
            assert(ls == seq![l]);
            lemma_mtl_steps_one(st, l);
            assert(is_word("Ke"@));
            assert forall|j: int| 0 <= j < x.len() implies is_word(#[trigger] x[j]) by {
                lemma_float_word(x[j]);
            }
            lemma_words_spaced("Ke"@, x);
            lemma_spaced_free("Ke"@, x);
            assert(x.take(3) =~= x);
            assert(vec_arg(x) == Ok::<_, MtlErrorView>(x));
            lemma_prop_step(st, "Ke"@, x);
        },
        None => {
            assert(ls =~= Seq::<Seq<char>>::empty());
        },
    }
}

pub open spec fn set_ns(m: MaterialView, v: Option<Seq<char>>) -> MaterialView {
    MaterialView { ns: if v is Some { v } else { m.ns }, ..m }
}

proof fn lemma_field_ns(st: MtlState, v: Option<Seq<char>>)
    requires
        st.cur is Some,
        v matches Some(x) ==> is_float_lit(x),
    ensures
        mtl_steps(st, opt_seq("Ns"@, v)) == Ok::<_, MtlErrorView>(
            MtlState { done: st.done, cur: Some(set_ns(st.cur->0, v)) },
        ),
        all_free(opt_seq("Ns"@, v)),
{
    lemma_mtl_keywords();
    lemma_mtl_keywords_distinct();
    let ls = opt_seq("Ns"@, v);
    match v {
        Some(x) => {
            let l = ls[0];
            assert(ls == seq![l]);
            lemma_mtl_steps_one(st, l);
            assert(is_word("Ns"@));
            lemma_float_word(x);
            lemma_words_keyword("Ns"@, x);
            lemma_words_word(x);
            assert(seq!["Ns"@] + seq![x] =~= seq!["Ns"@, x]);
            assert(f32_arg(seq![x]) == Ok::<_, MtlErrorView>(x));
            lemma_prop_step(st, "Ns"@, seq![x]);
            lemma_prefixed_free("Ns"@, x);
        },
        None => {
            assert(ls =~= Seq::<Seq<char>>::empty());
        },
    }
}

pub open spec fn set_ni(m: MaterialView, v: Option<Seq<char>>) -> MaterialView {
    MaterialView { ni: if v is Some { v } else { m.ni }, ..m }
}

proof fn lemma_field_ni(st: MtlState, v: Option<Seq<char>>)
    requires
        st.cur is Some,
        v matches Some(x) ==> is_float_lit(x),
    ensures
        mtl_steps(st, opt_seq("Ni"@, v)) == Ok::<_, MtlErrorView>(
            MtlState { done: st.done, cur: Some(set_ni(st.cur->0, v)) },
        ),
        all_free(opt_seq("Ni"@, v)),
{
    lemma_mtl_keywords();
    lemma_mtl_keywords_distinct();
    let ls = opt_seq("Ni"@, v);
    match v {
        Some(x) => {
            let l = ls[0];
            assert(ls == seq![l]);
            lemma_mtl_steps_one(st, l);
            assert(is_word("Ni"@));
            lemma_float_word(x);
            lemma_words_keyword("Ni"@, x);
            lemma_words_word(x);
            assert(seq!["Ni"@] + seq![x] =~= seq!["Ni"@, x]);
            assert(f32_arg(seq![x]) == Ok::<_, MtlErrorView>(x));
            lemma_prop_step(st, "Ni"@, seq![x]);
            lemma_prefixed_free("Ni"@, x);
        },
        None => {
            assert(ls =~= Seq::<Seq<char>>::empty());
        },
    }
}

pub open spec fn set_km(m: MaterialView, v: Option<Seq<char>>) -> MaterialView {
    MaterialView { km: if v is Some { v } else { m.km }, ..m }
}

proof fn lemma_field_km(st: MtlState, v: Option<Seq<char>>)
    requires
        st.cur is Some,
        v matches Some(x) ==> is_float_lit(x),
    ensures
        mtl_steps(st, opt_seq("Km"@, v)) == Ok::<_, MtlErrorView>(
            MtlState { done: st.done, cur: Some(set_km(st.cur->0, v)) },
        ),
        all_free(opt_seq("Km"@, v)),
{
    lemma_mtl_keywords();
    lemma_mtl_keywords_distinct();
    let ls = opt_seq("Km"@, v);
    match v {
        Some(x) => {
            let l = ls[0];
            assert(ls == seq![l]);
            lemma_mtl_steps_one(st, l);
            assert(is_word("Km"@));
            lemma_float_word(x);
            lemma_words_keyword("Km"@, x);
            lemma_words_word(x);
            assert(seq!["Km"@] + seq![x] =~= seq!["Km"@, x]);
            assert(f32_arg(seq![x]) == Ok::<_, MtlErrorView>(x));
            lemma_prop_step(st, "Km"@, seq![x]);
            lemma_prefixed_free("Km"@, x);
        },
        None => {
            assert(ls =~= Seq::<Seq<char>>::empty());
        },
    }
}

pub open spec fn set_d(m: MaterialView, v: Option<Seq<char>>) -> MaterialView {
    MaterialView { d: if v is Some { v } else { m.d }, ..m }
}

proof fn lemma_field_d(st: MtlState, v: Option<Seq<char>>)
    requires
        st.cur is Some,
        v matches Some(x) ==> is_float_lit(x),
    ensures
        mtl_steps(st, opt_seq("d"@, v)) == Ok::<_, MtlErrorView>(
            MtlState { done: st.done, cur: Some(set_d(st.cur->0, v)) },
        ),
        all_free(opt_seq("d"@, v)),
{
    lemma_mtl_keywords();
    lemma_mtl_keywords_distinct();
    let ls = opt_seq("d"@, v);
    match v {
        Some(x) => {
            let l = ls[0];
            assert(ls == seq![l]);
            lemma_mtl_steps_one(st, l);
            assert(is_word("d"@));
            lemma_float_word(x);
            lemma_words_keyword("d"@, x);
            lemma_words_word(x);
            assert(seq!["d"@] + seq![x] =~= seq!["d"@, x]);
            assert(f32_arg(seq![x]) == Ok::<_, MtlErrorView>(x));
            lemma_prop_step(st, "d"@, seq![x]);
            lemma_prefixed_free("d"@, x);
        },
        None => {
            assert(ls =~= Seq::<Seq<char>>::empty());
        },
    }
}

pub open spec fn set_tr(m: MaterialView, v: Option<Seq<char>>) -> MaterialView {
    MaterialView { tr: if v is Some { v } else { m.tr }, ..m }
}

proof fn lemma_field_tr(st: MtlState, v: Option<Seq<char>>)
    requires
        st.cur is Some,
        v matches Some(x) ==> is_float_lit(x),
    ensures
        mtl_steps(st, opt_seq("Tr"@, v)) == Ok::<_, MtlErrorView>(
            MtlState { done: st.done, cur: Some(set_tr(st.cur->0, v)) },
        ),
        all_free(opt_seq("Tr"@, v)),
{
    lemma_mtl_keywords();
    lemma_mtl_keywords_distinct();
    let ls = opt_seq("Tr"@, v);
    match v {
        Some(x) => {
            let l = ls[0];
            assert(ls == seq![l]);
            lemma_mtl_steps_one(st, l);
            assert(is_word("Tr"@));
            lemma_float_word(x);
            lemma_words_keyword("Tr"@, x);
            lemma_words_word(x);
            assert(seq!["Tr"@] + seq![x] =~= seq!["Tr"@, x]);
            assert(f32_arg(seq![x]) == Ok::<_, MtlErrorView>(x));
            lemma_prop_step(st, "Tr"@, seq![x]);
            lemma_prefixed_free("Tr"@, x);
        },
        None => {
            assert(ls =~= Seq::<Seq<char>>::empty());
        },
    }
}

pub open spec fn set_tf(m: MaterialView, v: Option<Seq<Seq<char>>>) -> MaterialView {
    MaterialView { tf: if v is Some { v } else { m.tf }, ..m }
}

proof fn lemma_field_tf(st: MtlState, v: Option<Seq<Seq<char>>>)
    requires
        st.cur is Some,
        v matches Some(x) ==> x.len() == 3 && forall|j: int| 0 <= j < 3 ==> is_float_lit(#[trigger] x[j]),
    ensures
        mtl_steps(st, opt_vec_seq("Tf"@, v)) == Ok::<_, MtlErrorView>(
            MtlState { done: st.done, cur: Some(set_tf(st.cur->0, v)) },
        ),
        all_free(opt_vec_seq("Tf"@, v)),
{
    lemma_mtl_keywords();
    lemma_mtl_keywords_distinct();
    let ls = opt_vec_seq("Tf"@, v);
    match v {
        Some(x) => {
            let l = ls[0];
            assert(ls == seq![l]);
            lemma_mtl_steps_one(st, l);
            assert(is_word("Tf"@));
            assert forall|j: int| 0 <= j < x.len() implies is_word(#[trigger] x[j]) by {
                lemma_float_word(x[j]);
            }
            lemma_words_spaced("Tf"@, x);
            lemma_spaced_free("Tf"@, x);
            assert(x.take(3) =~= x);
            assert(vec_arg(x) == Ok::<_, MtlErrorView>(x));
            lemma_prop_step(st, "Tf"@, x);
        },
        None => {
            assert(ls =~= Seq::<Seq<char>>::empty());
        },
    }
}

pub open spec fn set_illum(m: MaterialView, v: Option<i32>) -> MaterialView {
    MaterialView { illum: if v is Some { v } else { m.illum }, ..m }
}

proof fn lemma_field_illum(st: MtlState, v: Option<i32>)
    requires
        st.cur is Some,
        true,
    ensures
        mtl_steps(st, illum_seq(v)) == Ok::<_, MtlErrorView>(
            MtlState { done: st.done, cur: Some(set_illum(st.cur->0, v)) },
        ),
        all_free(illum_seq(v)),
{
    lemma_mtl_keywords();
    lemma_mtl_keywords_distinct();
    let ls = illum_seq(v);
    match v {
        Some(x) => {
            let l = ls[0];
            assert(ls == seq![l]);
            lemma_mtl_steps_one(st, l);
            assert(is_word("illum"@));
            lemma_int_text(x as int);
            let t = int_text(x as int);
            assert(l == "illum"@ + " "@ + t);
            lemma_words_keyword("illum"@, t);
            lemma_words_word(t);
            assert(i32_arg(seq![t]) == Ok::<_, MtlErrorView>(x));
            lemma_prop_step(st, "illum"@, seq![t]);
            lemma_prefixed_free("illum"@, t);
        },
        None => {
            assert(ls =~= Seq::<Seq<char>>::empty());
        },
    }
}

pub open spec fn set_map_ka(m: MaterialView, v: Option<Seq<char>>) -> MaterialView {
    MaterialView { map_ka: if v is Some { v } else { m.map_ka }, ..m }
}

proof fn lemma_field_map_ka(st: MtlState, v: Option<Seq<char>>)
    requires
        st.cur is Some,
        v matches Some(x) ==> is_name(x),
    ensures
        mtl_steps(st, opt_seq("map_Ka"@, v)) == Ok::<_, MtlErrorView>(
            MtlState { done: st.done, cur: Some(set_map_ka(st.cur->0, v)) },
        ),
        all_free(opt_seq("map_Ka"@, v)),
{
    lemma_mtl_keywords();
    lemma_mtl_keywords_distinct();
    let ls = opt_seq("map_Ka"@, v);
    match v {
        Some(x) => {
            let l = ls[0];
            assert(ls == seq![l]);
            lemma_mtl_steps_one(st, l);
            assert(is_word("map_Ka"@));
            lemma_words_keyword("map_Ka"@, x);
            lemma_name_words(x);
            assert(string_arg(words_of(x)) == Ok::<_, MtlErrorView>(x));
            lemma_prop_step(st, "map_Ka"@, words_of(x));
            lemma_prefixed_free("map_Ka"@, x);
        },
        None => {
            assert(ls =~= Seq::<Seq<char>>::empty());
        },
    }
}

pub open spec fn set_map_kd(m: MaterialView, v: Option<Seq<char>>) -> MaterialView {
    MaterialView { map_kd: if v is Some { v } else { m.map_kd }, ..m }
}

proof fn lemma_field_map_kd(st: MtlState, v: Option<Seq<char>>)
    requires
        st.cur is Some,
        v matches Some(x) ==> is_name(x),
    ensures
        mtl_steps(st, opt_seq("map_Kd"@, v)) == Ok::<_, MtlErrorView>(
            MtlState { done: st.done, cur: Some(set_map_kd(st.cur->0, v)) },
        ),
        all_free(opt_seq("map_Kd"@, v)),
{
    lemma_mtl_keywords();
    lemma_mtl_keywords_distinct();
    let ls = opt_seq("map_Kd"@, v);
    match v {
        Some(x) => {
            let l = ls[0];
            assert(ls == seq![l]);
            lemma_mtl_steps_one(st, l);
            assert(is_word("map_Kd"@));
            lemma_words_keyword("map_Kd"@, x);
            lemma_name_words(x);
            assert(string_arg(words_of(x)) == Ok::<_, MtlErrorView>(x));
            lemma_prop_step(st, "map_Kd"@, words_of(x));
            lemma_prefixed_free("map_Kd"@, x);
        },
        None => {
            assert(ls =~= Seq::<Seq<char>>::empty());
        },
    }
}

pub open spec fn set_map_ks(m: MaterialView, v: Option<Seq<char>>) -> MaterialView {
    MaterialView { map_ks: if v is Some { v } else { m.map_ks }, ..m }
}

proof fn lemma_field_map_ks(st: MtlState, v: Option<Seq<char>>)
    requires
        st.cur is Some,
        v matches Some(x) ==> is_name(x),
    ensures
        mtl_steps(st, opt_seq("map_Ks"@, v)) == Ok::<_, MtlErrorView>(
            MtlState { done: st.done, cur: Some(set_map_ks(st.cur->0, v)) },
        ),
        all_free(opt_seq("map_Ks"@, v)),
{
    lemma_mtl_keywords();
    lemma_mtl_keywords_distinct();
    let ls = opt_seq("map_Ks"@, v);
    match v {
        Some(x) => {
            let l = ls[0];
            assert(ls == seq![l]);
            lemma_mtl_steps_one(st, l);
            assert(is_word("map_Ks"@));
            lemma_words_keyword("map_Ks"@, x);
            lemma_name_words(x);
            assert(string_arg(words_of(x)) == Ok::<_, MtlErrorView>(x));
            lemma_prop_step(st, "map_Ks"@, words_of(x));
            lemma_prefixed_free("map_Ks"@, x);
        },
        None => {
            assert(ls =~= Seq::<Seq<char>>::empty());
        },
    }
}

pub open spec fn set_map_d(m: MaterialView, v: Option<Seq<char>>) -> MaterialView {
    MaterialView { map_d: if v is Some { v } else { m.map_d }, ..m }
}

proof fn lemma_field_map_d(st: MtlState, v: Option<Seq<char>>)
    requires
        st.cur is Some,
        v matches Some(x) ==> is_name(x),
    ensures
        mtl_steps(st, opt_seq("map_d"@, v)) == Ok::<_, MtlErrorView>(
            MtlState { done: st.done, cur: Some(set_map_d(st.cur->0, v)) },
        ),
        all_free(opt_seq("map_d"@, v)),
{
    lemma_mtl_keywords();
    lemma_mtl_keywords_distinct();
    let ls = opt_seq("map_d"@, v);
    match v {
        Some(x) => {
            let l = ls[0];
            assert(ls == seq![l]);
            lemma_mtl_steps_one(st, l);
            assert(is_word("map_d"@));
            lemma_words_keyword("map_d"@, x);
            lemma_name_words(x);
            assert(string_arg(words_of(x)) == Ok::<_, MtlErrorView>(x));
            lemma_prop_step(st, "map_d"@, words_of(x));
            lemma_prefixed_free("map_d"@, x);
        },
        None => {
            assert(ls =~= Seq::<Seq<char>>::empty());
        },
    }
}

pub open spec fn set_map_refl(m: MaterialView, v: Option<Seq<char>>) -> MaterialView {
    MaterialView { map_refl: if v is Some { v } else { m.map_refl }, ..m }
}

proof fn lemma_field_map_refl(st: MtlState, v: Option<Seq<char>>)
    requires
        st.cur is Some,
        v matches Some(x) ==> is_name(x),
    ensures
        mtl_steps(st, opt_seq("refl"@, v)) == Ok::<_, MtlErrorView>(
            MtlState { done: st.done, cur: Some(set_map_refl(st.cur->0, v)) },
        ),
        all_free(opt_seq("refl"@, v)),
{
    lemma_mtl_keywords();
    lemma_mtl_keywords_distinct();
    let ls = opt_seq("refl"@, v);
    match v {
        Some(x) => {
            let l = ls[0];
            assert(ls == seq![l]);
            lemma_mtl_steps_one(st, l);
            assert(is_word("refl"@));
            lemma_words_keyword("refl"@, x);
            lemma_name_words(x);
            assert(string_arg(words_of(x)) == Ok::<_, MtlErrorView>(x));
            lemma_prop_step(st, "refl"@, words_of(x));
            lemma_prefixed_free("refl"@, x);
        },
        None => {
            assert(ls =~= Seq::<Seq<char>>::empty());
        },
    }
}

pub open spec fn set_map_bump(m: MaterialView, v: Option<Seq<char>>) -> MaterialView {
    MaterialView { map_bump: if v is Some { v } else { m.map_bump }, ..m }
}

proof fn lemma_field_map_bump(st: MtlState, v: Option<Seq<char>>)
    requires
        st.cur is Some,
        v matches Some(x) ==> is_name(x),
    ensures
        mtl_steps(st, opt_seq("bump"@, v)) == Ok::<_, MtlErrorView>(
            MtlState { done: st.done, cur: Some(set_map_bump(st.cur->0, v)) },
        ),
        all_free(opt_seq("bump"@, v)),
{
    lemma_mtl_keywords();
    lemma_mtl_keywords_distinct();
    let ls = opt_seq("bump"@, v);
    match v {
        Some(x) => {
            let l = ls[0];
            assert(ls == seq![l]);
            lemma_mtl_steps_one(st, l);
            assert(is_word("bump"@));
            lemma_words_keyword("bump"@, x);
            lemma_name_words(x);
            assert(string_arg(words_of(x)) == Ok::<_, MtlErrorView>(x));
            lemma_prop_step(st, "bump"@, words_of(x));
            lemma_prefixed_free("bump"@, x);
        },
        None => {
            assert(ls =~= Seq::<Seq<char>>::empty());
        },
    }
}

/// A material that writing and reading give back: a one-word name, numbers as their text,
/// file names of words joined by single spaces, and no `map_Ke` or `map_Ns`, which are not read.
pub open spec fn material_ok(m: MaterialView) -> bool {
    &&& is_word(m.name)
    &&& (m.ka matches Some(x) ==> x.len() == 3 && forall|j: int| 0 <= j < 3 ==> is_float_lit(#[trigger] x[j]))
    &&& (m.kd matches Some(x) ==> x.len() == 3 && forall|j: int| 0 <= j < 3 ==> is_float_lit(#[trigger] x[j]))
    &&& (m.ks matches Some(x) ==> x.len() == 3 && forall|j: int| 0 <= j < 3 ==> is_float_lit(#[trigger] x[j]))
    &&& (m.ke matches Some(x) ==> x.len() == 3 && forall|j: int| 0 <= j < 3 ==> is_float_lit(#[trigger] x[j]))
    &&& (m.ns matches Some(x) ==> is_float_lit(x))
    &&& (m.ni matches Some(x) ==> is_float_lit(x))
    &&& (m.km matches Some(x) ==> is_float_lit(x))
    &&& (m.d matches Some(x) ==> is_float_lit(x))
    &&& (m.tr matches Some(x) ==> is_float_lit(x))
    &&& (m.tf matches Some(x) ==> x.len() == 3 && forall|j: int| 0 <= j < 3 ==> is_float_lit(#[trigger] x[j]))
    &&& true
    &&& (m.map_ka matches Some(x) ==> is_name(x))
    &&& (m.map_kd matches Some(x) ==> is_name(x))
    &&& (m.map_ks matches Some(x) ==> is_name(x))
    &&& (m.map_d matches Some(x) ==> is_name(x))
    &&& (m.map_refl matches Some(x) ==> is_name(x))
    &&& (m.map_bump matches Some(x) ==> is_name(x))
    &&& m.map_ke is None
    &&& m.map_ns is None
}

pub open spec fn colors_seq(m: MaterialView) -> Seq<Seq<char>> {
    opt_vec_seq("Ka"@, m.ka) + opt_vec_seq("Kd"@, m.kd) + opt_vec_seq("Ks"@, m.ks) + opt_vec_seq("Ke"@, m.ke)
}

proof fn lemma_colors_text(m: MaterialView)
    ensures
        colors_text(m) == joined(colors_seq(m)),
{
    lemma_opt_vec_text("Ka"@, m.ka);
    lemma_opt_vec_text("Kd"@, m.kd);
    lemma_opt_vec_text("Ks"@, m.ks);
    lemma_opt_vec_text("Ke"@, m.ke);
    lemma_joined_append(opt_vec_seq("Ka"@, m.ka), opt_vec_seq("Kd"@, m.kd));
    lemma_joined_append(opt_vec_seq("Ka"@, m.ka) + opt_vec_seq("Kd"@, m.kd), opt_vec_seq("Ks"@, m.ks));
    lemma_joined_append(opt_vec_seq("Ka"@, m.ka) + opt_vec_seq("Kd"@, m.kd) + opt_vec_seq("Ks"@, m.ks), opt_vec_seq("Ke"@, m.ke));
}

proof fn lemma_colors_steps(st: MtlState, m: MaterialView)
    requires
        st.cur is Some,
        material_ok(m),
    ensures
        mtl_steps(st, colors_seq(m)) == Ok::<_, MtlErrorView>(MtlState { done: st.done, cur: Some(set_ke(set_ks(set_kd(set_ka(st.cur->0, m.ka), m.kd), m.ks), m.ke)) }),
        all_free(colors_seq(m)),
{
    let c = st.cur->0;
    lemma_field_ka(st, m.ka);
    let s0 = MtlState { done: st.done, cur: Some(set_ka(c, m.ka)) };
    lemma_field_kd(s0, m.kd);
    let s1 = MtlState { done: st.done, cur: Some(set_kd(set_ka(c, m.ka), m.kd)) };
    lemma_mtl_steps_append(st, opt_vec_seq("Ka"@, m.ka), opt_vec_seq("Kd"@, m.kd));
    lemma_all_free_concat(opt_vec_seq("Ka"@, m.ka), opt_vec_seq("Kd"@, m.kd));
    lemma_field_ks(s1, m.ks);
    let s2 = MtlState { done: st.done, cur: Some(set_ks(set_kd(set_ka(c, m.ka), m.kd), m.ks)) };
    lemma_mtl_steps_append(st, opt_vec_seq("Ka"@, m.ka) + opt_vec_seq("Kd"@, m.kd), opt_vec_seq("Ks"@, m.ks));
    lemma_all_free_concat(opt_vec_seq("Ka"@, m.ka) + opt_vec_seq("Kd"@, m.kd), opt_vec_seq("Ks"@, m.ks));
    lemma_field_ke(s2, m.ke);
    let s3 = MtlState { done: st.done, cur: Some(set_ke(set_ks(set_kd(set_ka(c, m.ka), m.kd), m.ks), m.ke)) };
    lemma_mtl_steps_append(st, opt_vec_seq("Ka"@, m.ka) + opt_vec_seq("Kd"@, m.kd) + opt_vec_seq("Ks"@, m.ks), opt_vec_seq("Ke"@, m.ke));
    lemma_all_free_concat(opt_vec_seq("Ka"@, m.ka) + opt_vec_seq("Kd"@, m.kd) + opt_vec_seq("Ks"@, m.ks), opt_vec_seq("Ke"@, m.ke));
}

pub open spec fn scalars_seq(m: MaterialView) -> Seq<Seq<char>> {
    opt_seq("Ns"@, m.ns) + opt_seq("Ni"@, m.ni) + opt_seq("Km"@, m.km) + opt_seq("d"@, m.d) + opt_seq("Tr"@, m.tr)
}

proof fn lemma_scalars_text(m: MaterialView)
    ensures
        scalars_text(m) == joined(scalars_seq(m)),
{
    lemma_opt_text("Ns"@, m.ns);
    lemma_opt_text("Ni"@, m.ni);
    lemma_opt_text("Km"@, m.km);
    lemma_opt_text("d"@, m.d);
    lemma_opt_text("Tr"@, m.tr);
    lemma_joined_append(opt_seq("Ns"@, m.ns), opt_seq("Ni"@, m.ni));
    lemma_joined_append(opt_seq("Ns"@, m.ns) + opt_seq("Ni"@, m.ni), opt_seq("Km"@, m.km));
    lemma_joined_append(opt_seq("Ns"@, m.ns) + opt_seq("Ni"@, m.ni) + opt_seq("Km"@, m.km), opt_seq("d"@, m.d));
    lemma_joined_append(opt_seq("Ns"@, m.ns) + opt_seq("Ni"@, m.ni) + opt_seq("Km"@, m.km) + opt_seq("d"@, m.d), opt_seq("Tr"@, m.tr));
}

proof fn lemma_scalars_steps(st: MtlState, m: MaterialView)
    requires
        st.cur is Some,
        material_ok(m),
    ensures
        mtl_steps(st, scalars_seq(m)) == Ok::<_, MtlErrorView>(MtlState { done: st.done, cur: Some(set_tr(set_d(set_km(set_ni(set_ns(st.cur->0, m.ns), m.ni), m.km), m.d), m.tr)) }),
        all_free(scalars_seq(m)),
{
    let c = st.cur->0;
    lemma_field_ns(st, m.ns);
    let s0 = MtlState { done: st.done, cur: Some(set_ns(c, m.ns)) };
    lemma_field_ni(s0, m.ni);
    let s1 = MtlState { done: st.done, cur: Some(set_ni(set_ns(c, m.ns), m.ni)) };
    lemma_mtl_steps_append(st, opt_seq("Ns"@, m.ns), opt_seq("Ni"@, m.ni));
    lemma_all_free_concat(opt_seq("Ns"@, m.ns), opt_seq("Ni"@, m.ni));
    lemma_field_km(s1, m.km);
    let s2 = MtlState { done: st.done, cur: Some(set_km(set_ni(set_ns(c, m.ns), m.ni), m.km)) };
    lemma_mtl_steps_append(st, opt_seq("Ns"@, m.ns) + opt_seq("Ni"@, m.ni), opt_seq("Km"@, m.km));
    lemma_all_free_concat(opt_seq("Ns"@, m.ns) + opt_seq("Ni"@, m.ni), opt_seq("Km"@, m.km));
    lemma_field_d(s2, m.d);
    let s3 = MtlState { done: st.done, cur: Some(set_d(set_km(set_ni(set_ns(c, m.ns), m.ni), m.km), m.d)) };
    lemma_mtl_steps_append(st, opt_seq("Ns"@, m.ns) + opt_seq("Ni"@, m.ni) + opt_seq("Km"@, m.km), opt_seq("d"@, m.d));
    lemma_all_free_concat(opt_seq("Ns"@, m.ns) + opt_seq("Ni"@, m.ni) + opt_seq("Km"@, m.km), opt_seq("d"@, m.d));
    lemma_field_tr(s3, m.tr);
    let s4 = MtlState { done: st.done, cur: Some(set_tr(set_d(set_km(set_ni(set_ns(c, m.ns), m.ni), m.km), m.d), m.tr)) };
    lemma_mtl_steps_append(st, opt_seq("Ns"@, m.ns) + opt_seq("Ni"@, m.ni) + opt_seq("Km"@, m.km) + opt_seq("d"@, m.d), opt_seq("Tr"@, m.tr));
    lemma_all_free_concat(opt_seq("Ns"@, m.ns) + opt_seq("Ni"@, m.ni) + opt_seq("Km"@, m.km) + opt_seq("d"@, m.d), opt_seq("Tr"@, m.tr));
}

pub open spec fn lighting_seq(m: MaterialView) -> Seq<Seq<char>> {
    opt_vec_seq("Tf"@, m.tf) + illum_seq(m.illum)
}

proof fn lemma_lighting_text(m: MaterialView)
    ensures
        illum_text(m) == joined(lighting_seq(m)),
{
    lemma_opt_vec_text("Tf"@, m.tf);
    lemma_illum_text(m.illum);
    lemma_joined_append(opt_vec_seq("Tf"@, m.tf), illum_seq(m.illum));
}

proof fn lemma_lighting_steps(st: MtlState, m: MaterialView)
    requires
        st.cur is Some,
        material_ok(m),
    ensures
        mtl_steps(st, lighting_seq(m)) == Ok::<_, MtlErrorView>(MtlState { done: st.done, cur: Some(set_illum(set_tf(st.cur->0, m.tf), m.illum)) }),
        all_free(lighting_seq(m)),
{
    let c = st.cur->0;
    lemma_field_tf(st, m.tf);
    let s0 = MtlState { done: st.done, cur: Some(set_tf(c, m.tf)) };
    lemma_field_illum(s0, m.illum);
    let s1 = MtlState { done: st.done, cur: Some(set_illum(set_tf(c, m.tf), m.illum)) };
    lemma_mtl_steps_append(st, opt_vec_seq("Tf"@, m.tf), illum_seq(m.illum));
    lemma_all_free_concat(opt_vec_seq("Tf"@, m.tf), illum_seq(m.illum));
}

pub open spec fn maps_seq(m: MaterialView) -> Seq<Seq<char>> {
    opt_seq("map_Ka"@, m.map_ka) + opt_seq("map_Kd"@, m.map_kd) + opt_seq("map_Ks"@, m.map_ks) + opt_seq("map_d"@, m.map_d) + opt_seq("refl"@, m.map_refl) + opt_seq("bump"@, m.map_bump)
}

proof fn lemma_maps_text(m: MaterialView)
    ensures
        maps_text(m) == joined(maps_seq(m)),
{
    lemma_opt_text("map_Ka"@, m.map_ka);
    lemma_opt_text("map_Kd"@, m.map_kd);
    lemma_opt_text("map_Ks"@, m.map_ks);
    lemma_opt_text("map_d"@, m.map_d);
    lemma_opt_text("refl"@, m.map_refl);
    lemma_opt_text("bump"@, m.map_bump);
    lemma_joined_append(opt_seq("map_Ka"@, m.map_ka), opt_seq("map_Kd"@, m.map_kd));
    lemma_joined_append(opt_seq("map_Ka"@, m.map_ka) + opt_seq("map_Kd"@, m.map_kd), opt_seq("map_Ks"@, m.map_ks));
    lemma_joined_append(opt_seq("map_Ka"@, m.map_ka) + opt_seq("map_Kd"@, m.map_kd) + opt_seq("map_Ks"@, m.map_ks), opt_seq("map_d"@, m.map_d));
    lemma_joined_append(opt_seq("map_Ka"@, m.map_ka) + opt_seq("map_Kd"@, m.map_kd) + opt_seq("map_Ks"@, m.map_ks) + opt_seq("map_d"@, m.map_d), opt_seq("refl"@, m.map_refl));
    lemma_joined_append(opt_seq("map_Ka"@, m.map_ka) + opt_seq("map_Kd"@, m.map_kd) + opt_seq("map_Ks"@, m.map_ks) + opt_seq("map_d"@, m.map_d) + opt_seq("refl"@, m.map_refl), opt_seq("bump"@, m.map_bump));
}

proof fn lemma_maps_steps(st: MtlState, m: MaterialView)
    requires
        st.cur is Some,
        material_ok(m),
    ensures
        mtl_steps(st, maps_seq(m)) == Ok::<_, MtlErrorView>(MtlState { done: st.done, cur: Some(set_map_bump(set_map_refl(set_map_d(set_map_ks(set_map_kd(set_map_ka(st.cur->0, m.map_ka), m.map_kd), m.map_ks), m.map_d), m.map_refl), m.map_bump)) }),
        all_free(maps_seq(m)),
{
    let c = st.cur->0;
    lemma_field_map_ka(st, m.map_ka);
    let s0 = MtlState { done: st.done, cur: Some(set_map_ka(c, m.map_ka)) };
    lemma_field_map_kd(s0, m.map_kd);
    let s1 = MtlState { done: st.done, cur: Some(set_map_kd(set_map_ka(c, m.map_ka), m.map_kd)) };
    lemma_mtl_steps_append(st, opt_seq("map_Ka"@, m.map_ka), opt_seq("map_Kd"@, m.map_kd));
    lemma_all_free_concat(opt_seq("map_Ka"@, m.map_ka), opt_seq("map_Kd"@, m.map_kd));
    lemma_field_map_ks(s1, m.map_ks);
    let s2 = MtlState { done: st.done, cur: Some(set_map_ks(set_map_kd(set_map_ka(c, m.map_ka), m.map_kd), m.map_ks)) };
    lemma_mtl_steps_append(st, opt_seq("map_Ka"@, m.map_ka) + opt_seq("map_Kd"@, m.map_kd), opt_seq("map_Ks"@, m.map_ks));
    lemma_all_free_concat(opt_seq("map_Ka"@, m.map_ka) + opt_seq("map_Kd"@, m.map_kd), opt_seq("map_Ks"@, m.map_ks));
    lemma_field_map_d(s2, m.map_d);
    let s3 = MtlState { done: st.done, cur: Some(set_map_d(set_map_ks(set_map_kd(set_map_ka(c, m.map_ka), m.map_kd), m.map_ks), m.map_d)) };
    lemma_mtl_steps_append(st, opt_seq("map_Ka"@, m.map_ka) + opt_seq("map_Kd"@, m.map_kd) + opt_seq("map_Ks"@, m.map_ks), opt_seq("map_d"@, m.map_d));
    lemma_all_free_concat(opt_seq("map_Ka"@, m.map_ka) + opt_seq("map_Kd"@, m.map_kd) + opt_seq("map_Ks"@, m.map_ks), opt_seq("map_d"@, m.map_d));
    lemma_field_map_refl(s3, m.map_refl);
    let s4 = MtlState { done: st.done, cur: Some(set_map_refl(set_map_d(set_map_ks(set_map_kd(set_map_ka(c, m.map_ka), m.map_kd), m.map_ks), m.map_d), m.map_refl)) };
    lemma_mtl_steps_append(st, opt_seq("map_Ka"@, m.map_ka) + opt_seq("map_Kd"@, m.map_kd) + opt_seq("map_Ks"@, m.map_ks) + opt_seq("map_d"@, m.map_d), opt_seq("refl"@, m.map_refl));
    lemma_all_free_concat(opt_seq("map_Ka"@, m.map_ka) + opt_seq("map_Kd"@, m.map_kd) + opt_seq("map_Ks"@, m.map_ks) + opt_seq("map_d"@, m.map_d), opt_seq("refl"@, m.map_refl));
    lemma_field_map_bump(s4, m.map_bump);
    let s5 = MtlState { done: st.done, cur: Some(set_map_bump(set_map_refl(set_map_d(set_map_ks(set_map_kd(set_map_ka(c, m.map_ka), m.map_kd), m.map_ks), m.map_d), m.map_refl), m.map_bump)) };
    lemma_mtl_steps_append(st, opt_seq("map_Ka"@, m.map_ka) + opt_seq("map_Kd"@, m.map_kd) + opt_seq("map_Ks"@, m.map_ks) + opt_seq("map_d"@, m.map_d) + opt_seq("refl"@, m.map_refl), opt_seq("bump"@, m.map_bump));
    lemma_all_free_concat(opt_seq("map_Ka"@, m.map_ka) + opt_seq("map_Kd"@, m.map_kd) + opt_seq("map_Ks"@, m.map_ks) + opt_seq("map_d"@, m.map_d) + opt_seq("refl"@, m.map_refl), opt_seq("bump"@, m.map_bump));
}

pub open spec fn material_seq(m: MaterialView) -> Seq<Seq<char>> {
    seq!["newmtl "@ + m.name] + colors_seq(m) + scalars_seq(m) + lighting_seq(m) + maps_seq(m)
}

proof fn lemma_material_text(m: MaterialView)
    ensures
        material_text(m) == joined(material_seq(m)),
{
    let a = seq!["newmtl "@ + m.name];
    lemma_joined_one("newmtl "@ + m.name);
    lemma_colors_text(m);
    lemma_scalars_text(m);
    lemma_lighting_text(m);
    lemma_maps_text(m);
    lemma_joined_append(a, colors_seq(m));
    lemma_joined_append(a + colors_seq(m), scalars_seq(m));
    lemma_joined_append(a + colors_seq(m) + scalars_seq(m), lighting_seq(m));
    lemma_joined_append(a + colors_seq(m) + scalars_seq(m) + lighting_seq(m), maps_seq(m));
}

proof fn lemma_newmtl_step(st: MtlState, name: Seq<char>)
    requires
        is_word(name),
    ensures
        mtl_steps(st, seq!["newmtl "@ + name]) == Ok::<_, MtlErrorView>(
            MtlState { done: flush(st), cur: Some(bare_material(name)) },
        ),
        all_free(seq!["newmtl "@ + name]),
{
    lemma_mtl_keywords();
    lemma_mtl_keywords_distinct();
    let l = "newmtl "@ + name;
    assert(is_word("newmtl"@));
    assert(l == "newmtl"@ + " "@ + name);
    lemma_words_keyword("newmtl"@, name);
    lemma_words_word(name);
    lemma_mtl_steps_one(st, l);
    assert(words_of(l) == seq!["newmtl"@, name]);
    lemma_free_ws(name);
    lemma_prefixed_free("newmtl"@, name);
    assert(seq![l][0] == l);
}

pub open spec fn after_colors(m: MaterialView) -> MaterialView {
    set_ke(set_ks(set_kd(set_ka(bare_material(m.name), m.ka), m.kd), m.ks), m.ke)
}

pub open spec fn after_scalars(m: MaterialView) -> MaterialView {
    set_tr(set_d(set_km(set_ni(set_ns(after_colors(m), m.ns), m.ni), m.km), m.d), m.tr)
}

pub open spec fn after_lighting(m: MaterialView) -> MaterialView {
    set_illum(set_tf(after_scalars(m), m.tf), m.illum)
}

pub open spec fn after_maps(m: MaterialView) -> MaterialView {
    set_map_bump(
        set_map_refl(
            set_map_d(
                set_map_ks(set_map_kd(set_map_ka(after_lighting(m), m.map_ka), m.map_kd), m.map_ks),
                m.map_d,
            ),
            m.map_refl,
        ),
        m.map_bump,
    )
}

proof fn lemma_after_maps(m: MaterialView)
    requires
        m.map_ke is None,
        m.map_ns is None,
    ensures
        after_maps(m) == m,
{
    assert(after_colors(m) == MaterialView { ka: m.ka, kd: m.kd, ks: m.ks, ke: m.ke, ..bare_material(m.name) });
    assert(after_scalars(m) == MaterialView { ka: m.ka, kd: m.kd, ks: m.ks, ke: m.ke, ns: m.ns, ni: m.ni, km: m.km, d: m.d, tr: m.tr, ..bare_material(m.name) });
    assert(after_lighting(m) == MaterialView { ka: m.ka, kd: m.kd, ks: m.ks, ke: m.ke, ns: m.ns, ni: m.ni, km: m.km, d: m.d, tr: m.tr, tf: m.tf, illum: m.illum, ..bare_material(m.name) });
    assert(after_maps(m) == MaterialView { ka: m.ka, kd: m.kd, ks: m.ks, ke: m.ke, ns: m.ns, ni: m.ni, km: m.km, d: m.d, tr: m.tr, tf: m.tf, illum: m.illum, map_ka: m.map_ka, map_kd: m.map_kd, map_ks: m.map_ks, map_d: m.map_d, map_refl: m.map_refl, map_bump: m.map_bump, ..bare_material(m.name) });
}

proof fn lemma_material_steps(st: MtlState, m: MaterialView)
    requires
        material_ok(m),
    ensures
        mtl_steps(st, material_seq(m)) == Ok::<_, MtlErrorView>(
            MtlState { done: flush(st), cur: Some(m) },
        ),
        all_free(material_seq(m)),
{
    let a = seq!["newmtl "@ + m.name];
    let done = flush(st);
    lemma_newmtl_step(st, m.name);
    let s0 = MtlState { done, cur: Some(bare_material(m.name)) };
    lemma_colors_steps(s0, m);
    let s1 = MtlState { done, cur: Some(after_colors(m)) };
    lemma_scalars_steps(s1, m);
    let s2 = MtlState { done, cur: Some(after_scalars(m)) };
    lemma_lighting_steps(s2, m);
    let s3 = MtlState { done, cur: Some(after_lighting(m)) };
    lemma_maps_steps(s3, m);
    lemma_after_maps(m);
    lemma_mtl_steps_append(st, a, colors_seq(m));
    lemma_mtl_steps_append(st, a + colors_seq(m), scalars_seq(m));
    lemma_mtl_steps_append(st, a + colors_seq(m) + scalars_seq(m), lighting_seq(m));
    lemma_mtl_steps_append(st, a + colors_seq(m) + scalars_seq(m) + lighting_seq(m), maps_seq(m));
    lemma_all_free_concat(a, colors_seq(m));
    lemma_all_free_concat(a + colors_seq(m), scalars_seq(m));
    lemma_all_free_concat(a + colors_seq(m) + scalars_seq(m), lighting_seq(m));
    lemma_all_free_concat(a + colors_seq(m) + scalars_seq(m) + lighting_seq(m), maps_seq(m));
}

pub open spec fn materials_seq(ms: Seq<MaterialView>) -> Seq<Seq<char>>
    decreases ms.len(),
{
    if ms.len() == 0 {
        Seq::empty()
    } else {
        materials_seq(ms.drop_last()) + material_seq(ms.last())
    }
}

proof fn lemma_materials_text(ms: Seq<MaterialView>)
    ensures
        materials_text(ms) == joined(materials_seq(ms)),
    decreases ms.len(),
{
    if ms.len() > 0 {
        lemma_materials_text(ms.drop_last());
        lemma_material_text(ms.last());
        lemma_joined_append(materials_seq(ms.drop_last()), material_seq(ms.last()));
    }
}

proof fn lemma_materials_steps(ms: Seq<MaterialView>)
    requires
        forall|i: int| 0 <= i < ms.len() ==> material_ok(#[trigger] ms[i]),
    ensures
        all_free(materials_seq(ms)),
        mtl_steps(MtlState { done: Seq::empty(), cur: None }, materials_seq(ms)) == Ok::<
            _,
            MtlErrorView,
        >(
            if ms.len() == 0 {
                MtlState { done: Seq::empty(), cur: None }
            } else {
                MtlState { done: ms.drop_last(), cur: Some(ms.last()) }
            },
        ),
    decreases ms.len(),
{
    let st0 = MtlState { done: Seq::empty(), cur: None };
    if ms.len() == 0 {
        assert(materials_seq(ms) =~= Seq::<Seq<char>>::empty());
    } else {
        let p = ms.drop_last();
        assert forall|i: int| 0 <= i < p.len() implies material_ok(#[trigger] p[i]) by {
            assert(p[i] == ms[i]);
        }
        assert(material_ok(ms[ms.len() - 1]));
        lemma_materials_steps(p);
        let sp = if p.len() == 0 {
            st0
        } else {
            MtlState { done: p.drop_last(), cur: Some(p.last()) }
        };
        lemma_material_steps(sp, ms.last());
        lemma_mtl_steps_append(st0, materials_seq(p), material_seq(ms.last()));
        lemma_all_free_concat(materials_seq(p), material_seq(ms.last()));
        if p.len() == 0 {
            assert(flush(sp) =~= ms.drop_last());
        } else {
            assert(p.drop_last().push(p.last()) =~= p);
        }
    }
}

/// Reading back what the writer writes of materials `ms` gives `ms`.
pub proof fn mtl_round_trip(ms: Seq<MaterialView>)
    requires
        forall|i: int| 0 <= i < ms.len() ==> material_ok(#[trigger] ms[i]),
    ensures
        mtl_parse(materials_text(ms)) == Ok::<_, MtlErrorView>(ms),
{
    let st0 = MtlState { done: Seq::empty(), cur: None };
    let all = materials_seq(ms);
    lemma_materials_text(ms);
    lemma_materials_steps(ms);
    lemma_lines_joined(all);
    lemma_mtl_run_steps(all.push(Seq::<char>::empty()));
    assert(all.push(Seq::<char>::empty()) =~= all + seq![Seq::<char>::empty()]);
    lemma_mtl_steps_append(st0, all, seq![Seq::<char>::empty()]);
    let sl = mtl_steps(st0, all)->Ok_0;
    lemma_mtl_steps_one(sl, Seq::<char>::empty());
    assert(words_of(Seq::<char>::empty()) =~= Seq::<Seq<char>>::empty());
    if ms.len() > 0 {
        assert(ms.drop_last().push(ms.last()) =~= ms);
    } else {
        assert(ms =~= Seq::<MaterialView>::empty());
    }
}

/// Every material of a state that reading leaves can be written and read back.
pub open spec fn mtl_state_ok(st: MtlState) -> bool {
    &&& forall|i: int| 0 <= i < st.done.len() ==> material_ok(#[trigger] st.done[i])
    &&& (st.cur matches Some(m) ==> material_ok(m))
}

proof fn lemma_apply_ok(m: MaterialView, cmd: Seq<char>, a: Seq<Seq<char>>)
    requires
        material_ok(m),
        forall|i: int| 0 <= i < a.len() ==> is_word(#[trigger] a[i]),
        apply(m, cmd, a) is Ok,
    ensures
        material_ok(apply(m, cmd, a)->Ok_0),
{
    lemma_mtl_keywords();
    lemma_mtl_keywords_distinct();
    if a.len() > 0 {
        crate::parsed::lemma_join_name(a);
    }
    assert(vec_arg(a) matches Ok(v) ==> v.len() == 3 && forall|j: int| 0 <= j < 3 ==> is_float_lit(#[trigger] v[j]));
    assert(f32_arg(a) matches Ok(v) ==> is_float_lit(v));
    assert(string_arg(a) matches Ok(v) ==> is_name(v));
    if cmd == "Ka"@ {
        let v = vec_arg(a)->Ok_0;
        assert(apply(m, cmd, a)->Ok_0 == MaterialView { ka: Some(v), ..m });
    } else if cmd == "Kd"@ {
        let v = vec_arg(a)->Ok_0;
        assert(apply(m, cmd, a)->Ok_0 == MaterialView { kd: Some(v), ..m });
    } else if cmd == "Ks"@ {
        let v = vec_arg(a)->Ok_0;
        assert(apply(m, cmd, a)->Ok_0 == MaterialView { ks: Some(v), ..m });
    } else if cmd == "Ke"@ {
        let v = vec_arg(a)->Ok_0;
        assert(apply(m, cmd, a)->Ok_0 == MaterialView { ke: Some(v), ..m });
    } else if cmd == "Tf"@ {
        let v = vec_arg(a)->Ok_0;
        assert(apply(m, cmd, a)->Ok_0 == MaterialView { tf: Some(v), ..m });
    } else if cmd == "Ns"@ {
        let v = f32_arg(a)->Ok_0;
        assert(apply(m, cmd, a)->Ok_0 == MaterialView { ns: Some(v), ..m });
    } else if cmd == "Ni"@ {
        let v = f32_arg(a)->Ok_0;
        assert(apply(m, cmd, a)->Ok_0 == MaterialView { ni: Some(v), ..m });
    } else if cmd == "Km"@ {
        let v = f32_arg(a)->Ok_0;
        assert(apply(m, cmd, a)->Ok_0 == MaterialView { km: Some(v), ..m });
    } else if cmd == "d"@ {
        let v = f32_arg(a)->Ok_0;
        assert(apply(m, cmd, a)->Ok_0 == MaterialView { d: Some(v), ..m });
    } else if cmd == "Tr"@ {
        let v = f32_arg(a)->Ok_0;
        assert(apply(m, cmd, a)->Ok_0 == MaterialView { tr: Some(v), ..m });
    } else if cmd == "illum"@ {
    } else if cmd == "map_Ka"@ {
        let v = string_arg(a)->Ok_0;
        assert(apply(m, cmd, a)->Ok_0 == MaterialView { map_ka: Some(v), ..m });
    } else if cmd == "map_Kd"@ {
        let v = string_arg(a)->Ok_0;
        assert(apply(m, cmd, a)->Ok_0 == MaterialView { map_kd: Some(v), ..m });
    } else if cmd == "map_Ks"@ {
        let v = string_arg(a)->Ok_0;
        assert(apply(m, cmd, a)->Ok_0 == MaterialView { map_ks: Some(v), ..m });
    } else if cmd == "map_d"@ {
        let v = string_arg(a)->Ok_0;
        assert(apply(m, cmd, a)->Ok_0 == MaterialView { map_d: Some(v), ..m });
    } else if cmd == "map_refl"@ {
        let v = string_arg(a)->Ok_0;
        assert(apply(m, cmd, a)->Ok_0 == MaterialView { map_refl: Some(v), ..m });
    } else if cmd == "refl"@ {
        let v = string_arg(a)->Ok_0;
        assert(apply(m, cmd, a)->Ok_0 == MaterialView { map_refl: Some(v), ..m });
    } else if cmd == "map_bump"@ {
        let v = string_arg(a)->Ok_0;
        assert(apply(m, cmd, a)->Ok_0 == MaterialView { map_bump: Some(v), ..m });
    } else if cmd == "map_Bump"@ {
        let v = string_arg(a)->Ok_0;
        assert(apply(m, cmd, a)->Ok_0 == MaterialView { map_bump: Some(v), ..m });
    } else if cmd == "bump"@ {
        let v = string_arg(a)->Ok_0;
        assert(apply(m, cmd, a)->Ok_0 == MaterialView { map_bump: Some(v), ..m });
    }
}

proof fn lemma_mtl_step_ok(st: MtlState, line: Seq<char>)
    requires
        mtl_state_ok(st),
        mtl_step(st, words_of(line)) is Ok,
    ensures
        mtl_state_ok(mtl_step(st, words_of(line))->Ok_0),
{
    lemma_mtl_keywords();
    let w = words_of(line);
    lemma_words_are_words(line);
    if w.len() > 0 {
        let a = w.drop_first();
        assert forall|i: int| 0 <= i < a.len() implies is_word(#[trigger] a[i]) by {
            assert(a[i] == w[i + 1]);
        }
        let st2 = mtl_step(st, w)->Ok_0;
        if w[0] == "newmtl"@ {
            assert(is_word(w[1]));
            assert forall|i: int| 0 <= i < st2.done.len() implies material_ok(#[trigger] st2.done[i]) by {
                if i < st.done.len() {
                    assert(st2.done[i] == st.done[i]);
                }
            }
        } else if is_material_cmd(w[0]) {
            if let Some(m) = st.cur {
                lemma_apply_ok(m, w[0], a);
            }
        }
    }
}

proof fn lemma_mtl_run_ok(ls: Seq<Seq<char>>)
    requires
        mtl_run(ls) is Ok,
    ensures
        mtl_state_ok(mtl_run(ls)->Ok_0),
    decreases ls.len(),
{
    if ls.len() > 0 {
        lemma_mtl_run_ok(ls.drop_last());
        lemma_mtl_step_ok(mtl_run(ls.drop_last())->Ok_0, ls.last());
    }
}

/// Reading back what the writer writes of the materials that reading a library gave gives the
/// same materials.
pub proof fn parsed_mtl_round_trip(text: Seq<char>, ms: Seq<MaterialView>)
    requires
        mtl_parse(text) == Ok::<_, MtlErrorView>(ms),
    ensures
        mtl_parse(materials_text(ms)) == Ok::<_, MtlErrorView>(ms),
{
    lemma_mtl_run_ok(lines_of(text));
    let st = mtl_run(lines_of(text))->Ok_0;
    assert(ms == flush(st));
    assert forall|i: int| 0 <= i < ms.len() implies material_ok(#[trigger] ms[i]) by {
        if i < st.done.len() {
            assert(ms[i] == st.done[i]);
        }
    }
    mtl_round_trip(ms);
}

} // verus!
