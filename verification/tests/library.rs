//! Browsing a library.

use voxview::library::{AssetStats, Library, Load, Row, Scope, Sort};
use voxview::names::{family_key, family_tail, natural_cmp, thousands};
use voxview::paths::FilePath;

const NOW: i64 = 0;

fn path(s: &str) -> FilePath {
    FilePath {
        anchor: Vec::new(),
        names: s.split('/').map(String::from).collect(),
    }
}

fn lib(paths: &[&str]) -> Library {
    let files = paths.iter().map(|p| path(&format!("root/{p}"))).collect();
    Library::new(path("root"), files)
}

fn stats(dims: [i32; 3]) -> AssetStats {
    AssetStats {
        dims,
        voxels: 1,
        triangles: 12,
        models: 1,
        instances: 1,
        palette_from_file: true,
        palette_head: Vec::new(),
        bytes: 0,
        modified: None,
    }
}

#[test]
fn digit_grouping() {
    assert_eq!(thousands(0), "0");
    assert_eq!(thousands(999), "999");
    assert_eq!(thousands(1_000), "1,000");
    assert_eq!(thousands(1_234_567), "1,234,567");
}

#[test]
fn families_come_from_shared_prefixes() {
    assert_eq!(family_key("crate-0").as_deref(), Some("crate"));
    assert_eq!(
        family_key("bench_coastal-12").as_deref(),
        Some("bench_coastal")
    );
    assert_eq!(family_key("bed_cliff_head").as_deref(), Some("bed_cliff"));
    assert_eq!(
        family_key("barrel_wood_coal").as_deref(),
        Some("barrel_wood")
    );
    assert_eq!(family_key("barrel"), None);
    assert_eq!(family_key("_leading"), None);
}

#[test]
fn a_tail_is_what_is_left_of_a_name_in_its_family() {
    assert_eq!(family_tail("crate-0", "crate"), "0");
    assert_eq!(family_tail("crate--0", "crate"), "0");
    assert_eq!(family_tail("barrel", "crate"), "barrel");
}

#[test]
fn a_prefix_only_one_file_uses_is_not_a_family() {
    let lib = lib(&["furniture/barrel.vox", "furniture/crate-0.vox"]);
    assert_eq!(lib.assets[0].family, None, "barrel has no siblings");
    assert_eq!(lib.assets[1].family, None, "one crate is not a family");
}

#[test]
fn variants_stack_into_one_row_and_open_again() {
    let mut lib = lib(&[
        "furniture/barrel.vox",
        "furniture/crate-0.vox",
        "furniture/crate-1.vox",
        "furniture/crate-2.vox",
    ]);
    assert_eq!(
        lib.rows(NOW).len(),
        2,
        "barrel, plus one stack of three crates"
    );

    let stack = lib.rows(NOW)[1].clone();
    assert!(matches!(&stack, Row::Family { members, .. } if members.len() == 3));
    assert!(!lib.family_expanded(&stack));

    lib.toggle_family(&stack);
    assert_eq!(lib.rows(NOW).len(), 5, "the stack plus its three members");
    assert!(lib.family_expanded(&stack));

    lib.stack_variants = false;
    lib.invalidate();
    assert_eq!(lib.rows(NOW).len(), 4);
}

#[test]
fn toggling_a_stack_twice_closes_it() {
    let mut lib = lib(&["a/crate-0.vox", "a/crate-1.vox"]);
    let stack = lib.rows(NOW)[0].clone();
    lib.toggle_family(&stack);
    lib.toggle_family(&stack);
    assert!(lib.expanded_families.is_empty());
    assert_eq!(lib.rows(NOW).len(), 1);
}

#[test]
fn identical_names_in_different_folders_are_different_families() {
    let lib = lib(&[
        "a/crate-0.vox",
        "a/crate-1.vox",
        "b/crate-0.vox",
        "b/crate-1.vox",
    ]);
    let mut lib = lib;
    assert_eq!(lib.rows(NOW).len(), 2, "one stack per folder, not one overall");
}

#[test]
fn folder_totals_roll_up_and_scope_covers_the_subtree() {
    let mut lib = lib(&[
        "sprite/furniture/barrel.vox",
        "sprite/grass/blade.vox",
        "npc/wolf/head.vox",
    ]);
    assert_eq!(lib.folders[0].total, 3);
    assert_eq!(lib.folders[0].direct, 0);

    let sprite = lib
        .folders
        .iter()
        .position(|f| f.name == "sprite")
        .expect("sprite folder");
    assert_eq!(lib.folders[sprite].total, 2);

    lib.set_scope(Scope::Folder(sprite));
    assert_eq!(lib.rows(NOW).len(), 2);
}

#[test]
fn a_pass_through_chain_becomes_one_tree_row() {
    let lib = lib(&["voxygen/voxel/sprite/barrel.vox"]);
    let rows = lib.tree_rows();
    assert_eq!(
        rows[0].label,
        "root \u{b7} voxygen \u{b7} voxel \u{b7} sprite"
    );
    assert_eq!(rows.len(), 1);
}

#[test]
fn find_matches_names_and_paths() {
    let mut lib = lib(&["a/barrel.vox", "b/basket.vox"]);
    lib.find = "bas".into();
    lib.invalidate();
    assert_eq!(lib.filtered(NOW).len(), 1);

    lib.find = "a/".into();
    lib.invalidate();
    assert_eq!(lib.filtered(NOW).len(), 1, "a slash makes it a path search");
}

#[test]
fn find_ignores_case() {
    let mut lib = lib(&["a/Barrel.vox", "b/basket.vox"]);
    lib.find = "BARR".into();
    lib.invalidate();
    assert_eq!(lib.filtered(NOW), [0]);
    lib.find = "\u{c4}".into();
    lib.invalidate();
    assert!(lib.filtered(NOW).is_empty());
}

#[test]
fn lower_case_is_more_than_ascii() {
    let mut lib = lib(&["a/\u{e4}pfel.vox", "a/pear.vox"]);
    lib.find = "\u{c4}P".into();
    lib.invalidate();
    let found: Vec<String> = lib
        .filtered(NOW)
        .iter()
        .map(|i| lib.assets[*i].name.clone())
        .collect();
    assert_eq!(found, ["\u{e4}pfel"]);
}

#[test]
fn shift_click_extends_from_the_anchor() {
    let mut lib = lib(&["a/one.vox", "a/two.vox", "a/three.vox", "a/four.vox"]);
    lib.stack_variants = false;
    let order = lib.filtered(NOW);
    lib.click(order[0], false, false, NOW);
    lib.click(order[2], false, true, NOW);
    assert_eq!(lib.selection.len(), 3);
    assert_eq!(
        lib.focused(),
        Some(order[2]),
        "the inspector follows the click"
    );
}

#[test]
fn a_ctrl_click_adds_one_and_takes_it_out_again() {
    let mut lib = lib(&["a/one.vox", "a/two.vox"]);
    lib.click(0, false, false, NOW);
    lib.click(1, true, false, NOW);
    assert_eq!(lib.selection, [0, 1]);
    lib.click(0, true, false, NOW);
    assert_eq!(lib.selection, [1]);
    assert_eq!(lib.anchor, Some(0));
}

#[test]
fn extent_facet_counts_ignore_their_own_group() {
    let mut lib = lib(&["a/small.vox", "a/big.vox"]);
    lib.assets[0].load = Load::Ready(stats([8, 8, 8]));
    lib.assets[1].load = Load::Ready(stats([40, 40, 40]));

    lib.facets.extent[0] = true;
    lib.invalidate();
    assert_eq!(lib.filtered(NOW).len(), 1);

    let counts = lib.facet_counts(NOW);
    assert_eq!(counts.extent[0].matching, 1);
    assert_eq!(
        counts.extent[2].matching, 1,
        "the > 32 count must not be filtered by the <= 16 box"
    );
    assert_eq!(counts.total, 2);
}

#[test]
fn a_file_not_read_yet_is_counted_as_pending_and_fits_no_extent() {
    let mut lib = lib(&["a/small.vox", "a/later.vox"]);
    lib.assets[0].load = Load::Ready(stats([16, 1, 1]));
    let counts = lib.facet_counts(NOW);
    assert_eq!(counts.pending, 1);
    assert_eq!(counts.extent[0].matching, 1);
    assert_eq!(counts.extent[1].matching, 0);
    lib.facets.failed = true;
    lib.invalidate();
    assert!(lib.filtered(NOW).is_empty());
    lib.assets[1].load = Load::Failed("no".into());
    assert_eq!(lib.filtered(NOW), [1]);
    assert_eq!(lib.failures(), 1);
}

#[test]
fn numbers_in_names_sort_the_way_people_read_them() {
    let mut names = ["crate-10", "crate-9", "crate-1"];
    names.sort_by(|a, b| natural_cmp(a, b));
    assert_eq!(names, ["crate-1", "crate-9", "crate-10"]);
}

#[test]
fn the_cursor_walks_the_filtered_order_and_stops_at_the_ends() {
    let mut lib = lib(&["a/barrel.vox", "a/basket.vox", "b/wolf.vox"]);
    lib.find = "ba".into();
    lib.invalidate();
    assert_eq!(lib.rows(NOW).len(), 2, "wolf is filtered out");

    assert_eq!(lib.move_cursor(0, NOW), Some(0), "the cursor starts at the top");
    assert_eq!(lib.move_cursor(1, NOW), Some(1));
    assert_eq!(lib.move_cursor(1, NOW), Some(1), "clamped, not wrapped");
    assert_eq!(lib.move_cursor(-50, NOW), Some(0), "clamped at the other end");
    assert_eq!(
        lib.selection.len(),
        1,
        "moving the cursor selects what it lands on"
    );
}

#[test]
fn the_cursor_has_nowhere_to_go_in_an_empty_listing() {
    let mut lib = lib(&[]);
    assert_eq!(lib.move_cursor(1, NOW), None);
    assert_eq!(lib.cursor, 0);
}

#[test]
fn the_folder_hint_names_a_folder_only_when_it_is_not_the_one_in_view() {
    // Veloren's sprite variants are all called `0.vox`, so a cell caption
    // needs its folder unless the folder is already the subject.
    let mut lib = lib(&["sprite/carrot/0.vox", "sprite/radish/0.vox"]);
    assert_eq!(lib.folder_hint(0), Some("carrot"));

    let carrot = lib
        .folders
        .iter()
        .position(|f| f.name == "carrot")
        .expect("carrot folder");
    lib.set_scope(Scope::Folder(carrot));
    assert_eq!(lib.folder_hint(0), None, "already browsing carrot");
}

#[test]
fn collections_cut_across_folders() {
    let mut lib = lib(&["a/one.vox", "b/two.vox", "c/three.vox"]);
    let set = lib.new_collection("Tavern".into());
    assert_eq!(lib.add_to_collection(set, &[0, 2]), 2);
    assert_eq!(lib.add_to_collection(set, &[0]), 0, "no duplicates");

    lib.set_scope(Scope::Collection(set));
    assert_eq!(lib.rows(NOW).len(), 2);
    assert_eq!(lib.collections_of(0), ["Tavern"]);
}

#[test]
fn what_is_taken_out_of_a_collection_is_gone() {
    let mut lib = lib(&["a/one.vox", "b/two.vox"]);
    let set = lib.new_collection("Tavern".into());
    lib.add_to_collection(set, &[0, 1]);
    lib.remove_from_collection(set, 0);
    assert_eq!(lib.collections[set].members, [1]);
    lib.remove_from_collection(7, 0);
    assert_eq!(lib.add_to_collection(7, &[0]), 0);
}

#[test]
fn a_family_is_listed_with_and_without_the_one_asked_about() {
    let lib = lib(&["a/crate-10.vox", "a/crate-9.vox", "a/barrel.vox"]);
    assert_eq!(lib.variants_of(0), [1, 0]);
    assert_eq!(lib.family_of(0), [1]);
    assert!(lib.family_of(2).is_empty());
}

#[test]
fn sorting_by_extent_breaks_ties_by_name_and_turns_round() {
    let mut lib = lib(&["a/c.vox", "a/b.vox", "a/a.vox"]);
    lib.assets[0].load = Load::Ready(stats([4, 4, 4]));
    lib.assets[1].load = Load::Ready(stats([9, 1, 1]));
    lib.assets[2].load = Load::Ready(stats([4, 2, 2]));
    lib.sort = Sort::Extent;
    let up = lib.filtered(NOW);
    lib.descending = !lib.descending;
    let mut down = lib.filtered(NOW);
    down.reverse();
    assert_eq!(up, down);
    assert_eq!(up.len(), 3);
}

#[test]
fn the_breadcrumb_leads_from_the_root() {
    let mut lib = lib(&["a/b/one.vox"]);
    let last = lib.folders.len() - 1;
    lib.set_scope(Scope::Folder(last));
    let crumbs = lib.breadcrumb();
    assert_eq!(crumbs[0], 0);
    assert_eq!(*crumbs.last().unwrap(), last);
    assert_eq!(crumbs.len(), 3);
    lib.set_scope(Scope::Collection(0));
    assert!(lib.breadcrumb().is_empty());
}

#[test]
fn revealing_opens_every_folder_above() {
    let mut lib = lib(&["a/b/one.vox", "a/two.vox", "three.vox"]);
    for f in 0..lib.folders.len() {
        if lib.folders[f].expanded {
            lib.toggle_folder(f);
        }
    }
    let b = lib.folders.iter().position(|f| f.name == "b").unwrap();
    lib.reveal_folder(b);
    let open: Vec<&str> = lib
        .folders
        .iter()
        .filter(|f| f.expanded)
        .map(|f| f.name.as_str())
        .collect();
    assert_eq!(open, ["root", "a"]);
}

#[test]
fn an_asset_knows_where_it_lies() {
    let lib = lib(&["a/b/one.vox", "two.vox"]);
    assert_eq!(lib.relative(0), "a/b/one.vox");
    assert_eq!(lib.relative(1), "two.vox");
    assert_eq!(lib.directory(0), "a/b");
    assert_eq!(lib.directory(1), "");
    assert_eq!(lib.folder_relative(0), "");
    assert_eq!(lib.assets[0].name, "one");
}

#[test]
fn a_change_of_scope_forgets_the_selection() {
    let mut lib = lib(&["a/one.vox"]);
    lib.select_all(NOW);
    assert_eq!(lib.selection, [0]);
    assert!(lib.is_selected(0));
    lib.set_scope(Scope::Folder(1));
    assert!(lib.selection.is_empty());
    lib.find = "x".into();
    lib.facets.recent = true;
    lib.clear_filters();
    assert!(lib.find.is_empty());
    assert!(!lib.facets.any());
}

#[test]
fn stacking_only_folds() {
    let mut lib = lib(&[
        "b/crate-1.vox",
        "a/crate-0.vox",
        "b/barrel.vox",
        "a/crate-1.vox",
        "b/crate-0.vox",
        "a/crate-2.vox",
    ]);
    let listed = lib.filtered(NOW).clone();
    let rows: Vec<Row> = lib.rows(NOW).to_vec();
    let mut folded: Vec<usize> = Vec::new();
    for row in &rows {
        match row {
            Row::One(i) => folded.push(*i),
            Row::Family { members, .. } => {
                assert!(members.len() >= 2);
                assert!(members
                    .iter()
                    .all(|m| lib.assets[*m].folder == lib.assets[members[0]].folder));
                folded.extend(members);
            }
        }
    }
    assert_eq!(rows.len(), 3, "two stacks and the barrel");
    let mut sorted = folded.clone();
    sorted.sort();
    assert_eq!(sorted, [0, 1, 2, 3, 4, 5]);
    assert_eq!(listed.len(), folded.len());
}
