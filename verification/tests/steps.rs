//! The course tooling's texts: blocks, step numbers, working copies, reference files.

use wind_tunnel::steps::{
    current_step, fill_replacements, find_blocks, humanize_todo, is_empty, is_reference_text, parse_reference,
    parse_step, reset_replacements, rewrite, rewrite_default, starter_file, status_mark, step_of, tally,
    todo_line, usage, LAST_STEP, REGION_BEGIN, REGION_END, SOLUTION_BEGIN, SOLUTION_END,
};

fn chars(s: &str) -> Vec<char> {
    s.chars().collect()
}

fn text(c: &[char]) -> String {
    c.iter().collect()
}

const REFERENCE_SOURCE: &str = "\
fn a() -> u32 {
    // TODO-STEP:3 Écrire le calcul
    // SOLUTION-BEGIN
    1 + 1
    // SOLUTION-END
}

fn b() {
    // SOLUTION-BEGIN
    ()
    // SOLUTION-END
}
";

const WORKING_SOURCE: &str = "\
fn a() -> u32 {
    // À FAIRE (étape 3) Écrire le calcul
    // >>> ÉTAPE 3 — à compléter
    todo!(\"étape 3 — voir le commentaire ci-dessus\")
    // <<< ÉTAPE 3
}

fn c() {
    // >>> ÉTAPE 5 — à compléter
    let x = 2;
    // <<< ÉTAPE 5
}
";

#[test]
fn blocks_of_the_reference_sources_take_their_step_from_the_tag_above() {
    let blocks = find_blocks(REFERENCE_SOURCE, SOLUTION_BEGIN, SOLUTION_END);
    assert_eq!(blocks.len(), 2);
    assert_eq!((blocks[0].step, blocks[0].ordinal, blocks[0].start, blocks[0].end), (3, 0, 2, 4));
    assert_eq!(text(&blocks[0].indent), "    ");
    assert_eq!(blocks[0].body.iter().map(|l| text(l)).collect::<Vec<_>>(), vec!["    1 + 1"]);
    // the nearest tag of the eight lines above, even one that announced another block
    assert_eq!((blocks[1].step, blocks[1].ordinal, blocks[1].start, blocks[1].end), (3, 1, 8, 10));
}

#[test]
fn blocks_of_a_working_copy_take_their_step_from_the_marker() {
    let blocks = find_blocks(WORKING_SOURCE, REGION_BEGIN, REGION_END);
    assert_eq!(blocks.len(), 2);
    assert_eq!(blocks[0].step, 3);
    assert_eq!(blocks[1].step, 5);
    assert!(is_empty(&blocks[0]));
    assert!(!is_empty(&blocks[1]));
}

#[test]
fn a_tag_more_than_eight_lines_above_does_not_count() {
    let source = "// TODO-STEP:2\n\n\n\n\n\n\n\n\n// SOLUTION-BEGIN\nx\n// SOLUTION-END\n";
    let blocks = find_blocks(source, SOLUTION_BEGIN, SOLUTION_END);
    assert_eq!((blocks.len(), blocks[0].step), (1, 0));
}

#[test]
fn an_unclosed_block_ends_the_search() {
    let source = "// SOLUTION-BEGIN\nx\n// SOLUTION-END\n// SOLUTION-BEGIN\ny\n";
    let blocks = find_blocks(source, SOLUTION_BEGIN, SOLUTION_END);
    assert_eq!(blocks.len(), 1);
}

#[test]
fn the_step_of_a_marker_is_its_first_word() {
    let lines: Vec<Vec<char>> = vec![chars("  // >>> ÉTAPE 12 — à compléter"), chars("// >>> ÉTAPE x")];
    assert_eq!(step_of(&lines, 0, &chars(REGION_BEGIN)), Some(12));
    assert_eq!(step_of(&lines, 1, &chars(REGION_BEGIN)), None);
    let tagged: Vec<Vec<char>> = vec![chars("// TODO-STEP:7 a"), chars("// TODO-STEP:9 b"), chars("x")];
    assert_eq!(step_of(&tagged, 2, &chars(SOLUTION_BEGIN)), Some(9));
    assert_eq!(step_of(&tagged, 0, &chars(SOLUTION_BEGIN)), None);
}

#[test]
fn a_step_number_past_a_byte_is_no_step() {
    let lines: Vec<Vec<char>> = vec![chars("// TODO-STEP:300"), chars("x")];
    assert_eq!(step_of(&lines, 1, &chars(SOLUTION_BEGIN)), None);
}

#[test]
fn the_placeholder_line_keeps_the_indentation() {
    assert_eq!(text(&todo_line(&chars("    "), 4)), "    todo!(\"étape 4 — voir le commentaire ci-dessus\")");
}

#[test]
fn a_step_tag_becomes_an_instruction() {
    assert_eq!(
        text(&humanize_todo(&chars("    // TODO-STEP:3 Écrire l'en-tête"))),
        "    // À FAIRE (étape 3) Écrire l'en-tête"
    );
    assert_eq!(text(&humanize_todo(&chars("// TODO-STEP: sans numéro"))), "// TODO-STEP: sans numéro");
    assert_eq!(text(&humanize_todo(&chars("rien"))), "rien");
}

#[test]
fn the_starter_opens_each_block_and_keeps_its_body_aside() {
    let (new_text, chunk, holes) = starter_file(REFERENCE_SOURCE, "src/a.rs").unwrap();
    assert_eq!(holes, 2);
    assert_eq!(
        text(&new_text),
        "\
fn a() -> u32 {
    // À FAIRE (étape 3) Écrire le calcul
    // >>> ÉTAPE 3 — à compléter
    todo!(\"étape 3 — voir le commentaire ci-dessus\")
    // <<< ÉTAPE 3
}

fn b() {
    // >>> ÉTAPE 3 — à compléter
    todo!(\"étape 3 — voir le commentaire ci-dessus\")
    // <<< ÉTAPE 3
}
"
    );
    assert_eq!(text(&chunk), "@@ src/a.rs @@ 3 @@ 0\n    1 + 1\n@@\n@@ src/a.rs @@ 3 @@ 1\n    ()\n@@\n");
    assert!(starter_file("fn main() {}\n", "src/main.rs").is_none());
}

#[test]
fn the_reference_is_read_back() {
    let entries = parse_reference("@@ src/a.rs @@ 3 @@ 0\n    1 + 1\n@@\n@@ src/a.rs @@ 0 @@ 1\n    ()\n@@\n").unwrap();
    assert_eq!(entries.len(), 2);
    assert_eq!((text(&entries[0].key), entries[0].ordinal), ("src/a.rs".to_string(), 0));
    assert_eq!(entries[0].body.iter().map(|l| text(l)).collect::<Vec<_>>(), vec!["    1 + 1"]);
    assert_eq!(entries[1].ordinal, 1);
    assert_eq!(parse_reference("@@ a @@ 1 @@ x\n@@\n").unwrap_err(), "numéro d'ordre illisible");
}

#[test]
fn solving_fills_the_open_blocks_of_the_step() {
    let entries = parse_reference("@@ src/a.rs @@ 3 @@ 0\n    1 + 1\n@@\n").unwrap();
    let blocks = find_blocks(WORKING_SOURCE, REGION_BEGIN, REGION_END);
    let plan = fill_replacements(&blocks, 3, false, &chars("src/a.rs"), &entries);
    assert_eq!(plan.len(), 2);
    assert!(plan[1].is_none());
    let (new_text, changed) = rewrite(WORKING_SOURCE, &blocks, &plan);
    assert_eq!(changed, 1);
    assert!(text(&new_text).contains("// >>> ÉTAPE 3 — à compléter\n    1 + 1\n    // <<< ÉTAPE 3\n"));
}

#[test]
fn resetting_reopens_the_filled_blocks_of_the_step() {
    let blocks = find_blocks(WORKING_SOURCE, REGION_BEGIN, REGION_END);
    let plan = reset_replacements(&blocks, 5);
    let (new_text, changed) = rewrite(WORKING_SOURCE, &blocks, &plan);
    assert_eq!(changed, 1);
    assert!(text(&new_text).contains("// >>> ÉTAPE 5 — à compléter\n    todo!(\"étape 5 — voir le commentaire ci-dessus\")\n"));
    // a block still open is left alone
    let (same, none) = rewrite(WORKING_SOURCE, &blocks, &reset_replacements(&blocks, 3));
    assert_eq!((text(&same), none), (WORKING_SOURCE.to_string(), 0));
}

#[test]
fn the_manifest_declares_the_step() {
    let manifest = "[features]\ndefault = [\"step4\"]\nstep4 = []\n";
    assert_eq!(current_step(manifest), Some(4));
    let changed = rewrite_default(manifest, "[\"step7\"]").unwrap();
    assert_eq!(text(&changed), "[features]\ndefault = [\"step7\"]\nstep4 = []\n");
    assert_eq!(current_step(&text(&changed)), Some(7));
    assert!(rewrite_default("[package]\n", "[]").is_none());
    assert_eq!(current_step("[package]\n"), None);
}

#[test]
fn the_status_counts_blocks_per_step() {
    let blocks = find_blocks(WORKING_SOURCE, REGION_BEGIN, REGION_END);
    let mut counts = vec![(0usize, 0usize); 256];
    tally(&mut counts, &blocks);
    assert_eq!(counts[3], (0, 1));
    assert_eq!(counts[5], (1, 1));
    assert_eq!(counts[4], (0, 0));
    assert_eq!((status_mark(0, 0), status_mark(1, 1), status_mark(0, 1)), ("  ", "OK", "→ "));
    assert!(is_reference_text(REFERENCE_SOURCE));
    assert!(!is_reference_text(WORKING_SOURCE));
}

#[test]
fn a_step_number_is_read_from_the_command_line() {
    assert_eq!(parse_step(Some("3")), Ok(3));
    assert_eq!(parse_step(Some("+11")), Ok(LAST_STEP));
    assert_eq!(parse_step(Some("12")).unwrap_err(), "l'étape 12 n'existe pas encore (0 à 11)");
    assert_eq!(parse_step(Some("trois")).unwrap_err(), "« trois » n'est pas un numéro d'étape");
    assert_eq!(parse_step(None).unwrap_err(), format!("il manque le numéro d'étape\n\n{}", usage()));
    assert!(usage().contains("cargo xtask goto <n>      passer à l'étape n (0 à 11)\n"));
    assert!(usage().contains("(par défaut : travail/)"));
}

#[test]
fn filling_without_force_never_overwrites_a_written_block() {
    let entries = parse_reference("@@ src/a.rs @@ 5 @@ 1\n    let x = 3;\n@@\n").unwrap();
    let blocks = find_blocks(WORKING_SOURCE, REGION_BEGIN, REGION_END);
    // Block 1 (step 5) was written by hand: `goto` leaves it, `solve` replaces it.
    let plan = fill_replacements(&blocks, 5, false, &chars("src/a.rs"), &entries);
    assert!(plan.iter().all(|r| r.is_none()));
    let forced = fill_replacements(&blocks, 5, true, &chars("src/a.rs"), &entries);
    assert_eq!(forced[1].as_ref().map(|b| b.iter().map(|l| text(l)).collect::<Vec<_>>()), Some(vec!["    let x = 3;".to_string()]));
}
