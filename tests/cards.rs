use aro::data::{Card, CardPrice, CardSet, MiscInfo, ReleaseCatalog, ReleaseDate, ReleaseSet};
use aro::filter::SearchCard;
use aro::parser::parse_filters;

fn printing(name: &str, code: &str, rarity: &str) -> CardSet {
    CardSet { set_name: name.to_owned(), set_code: code.to_owned(), set_rarity: rarity.to_owned() }
}

fn price(cardmarket: &str, tcgplayer: &str) -> CardPrice {
    CardPrice { cardmarket_price: cardmarket.to_owned(), tcgplayer_price: tcgplayer.to_owned() }
}

fn dated(year: i32, month: u8, day: u8) -> MiscInfo {
    MiscInfo { beta_name: None, treated_as: None, tcg_date: Some(ReleaseDate { year, month, day }), genesys_points: 0 }
}

fn coffin() -> Card {
    Card {
        id: 41142615,
        type_fallback: "Normal Spell".to_owned(),
        name: "The Cheerful Coffin".to_owned(),
        text: "Discard up to 3 Monster Cards from your hand to the Graveyard.".to_owned(),
        card_sets: vec![printing("Dark Beginning 1", "DB1-EN167", "Common"), printing("Metal Raiders", "MRD-059", "Common")],
        card_prices: vec![price("0.06", "0.10")],
        misc_info: vec![dated(2002, 6, 26)],
        ..Default::default()
    }
}

fn lacooda() -> Card {
    Card {
        id: 2326738,
        typeline: Some(vec!["Zombie".to_owned(), "Effect".to_owned()]),
        name: "Des Lacooda".to_owned(),
        type_fallback: "Effect Monster".to_owned(),
        text: "Once per turn: You can change this card to face-down Defense Position. When this card is Flip Summoned: Draw 1 card."
            .to_owned(),
        atk: Some(500),
        def: Some(600),
        level: Some(3),
        attribute: Some("EARTH".to_owned()),
        card_sets: vec![printing("Astral Pack Three", "AP03-EN018", "Common"), printing("Gold Series", "GLD1-EN010", "Common")],
        card_prices: vec![price("0.22", "0.14")],
        misc_info: vec![dated(2003, 7, 18)],
        ..Default::default()
    }
}

fn black_luster_soldier() -> Card {
    Card {
        id: 49202162,
        typeline: Some(vec!["Warrior".to_owned(), "Link".to_owned(), "Effect".to_owned()]),
        name: "Black Luster Soldier - Soldier of Chaos".to_owned(),
        type_fallback: "Link Effect Monster".to_owned(),
        text: "3 monsters with different names\r\nIf this card was Link Summoned using a Level 7 or higher monster(s) as material, your opponent cannot target it with card effects, also it cannot be destroyed by your opponent's card effects. When this card destroys an opponent's monster by battle: You can activate 1 of these effects;\r\n● This card gains 1500 ATK.\r\n● This card can make a second attack during the Battle Phase of your next turn.\r\n● Banish 1 card on the field.".to_owned(),
        atk: Some(3000),
        def: None,
        level: None,
        attribute: Some("EARTH".to_owned()),
        link_rating: Some(3),
        link_arrows: Some(vec!["Top".to_owned(), "Bottom-Left".to_owned(), "Bottom-Right".to_owned()]),
        card_sets: vec![printing("OTS Tournament Pack 17", "OP17-EN003", "Ultimate Rare")],
        card_prices: vec![price("0.55", "2.60")],
        misc_info: vec![MiscInfo {
            beta_name: Some("Black Luster Soldier, the Chaos Warrior".to_owned()),
            treated_as: None,
            tcg_date: Some(ReleaseDate { year: 2019, month: 7, day: 11 }),
            genesys_points: 0,
        }],
        ..Default::default()
    }
}

fn no_catalog() -> ReleaseCatalog {
    ReleaseCatalog::new(&vec![])
}

fn search(card: &Card) -> SearchCard {
    SearchCard::new(card, &no_catalog())
}

fn accepts(query: &str, card: &SearchCard) -> bool {
    let filters = parse_filters(query).unwrap().1;
    filters.iter().all(|f| f.matches(card))
}

#[test]
fn level_filter_test() {
    let lacooda = search(&lacooda());
    let lacooda_but_level_4 = SearchCard { level: Some(4), ..lacooda.clone() };

    let filter_level_3 = parse_filters("l=3").unwrap().1;
    assert!(filter_level_3[0].matches(&lacooda));

    let filter_level_3_4 = parse_filters("l=3|4").unwrap().1;
    assert!(filter_level_3_4[0].matches(&lacooda));
    assert!(filter_level_3_4[0].matches(&lacooda_but_level_4));

    let filter_level_5 = parse_filters("l=5").unwrap().1;
    assert!(!filter_level_5[0].matches(&lacooda));
}

#[test]
fn filter_by_type_should_find_all_types() {
    let bls = search(&black_luster_soldier());
    let link_filter = parse_filters("t:link").unwrap().1;
    assert!(link_filter[0].matches(&bls));
    let warrior_filter = parse_filters("t:warrior").unwrap().1;
    assert!(warrior_filter[0].matches(&bls));
    let effect_filter = parse_filters("t:effect").unwrap().1;
    assert!(effect_filter[0].matches(&bls));
}

#[test]
fn filter_by_type_should_use_fallback_if_necessary() {
    let coffin = search(&coffin());
    let normal_filter = parse_filters("t:normal").unwrap().1;
    assert!(normal_filter[0].matches(&coffin));
    let spell_filter = parse_filters("t:spell").unwrap().1;
    assert!(spell_filter[0].matches(&coffin));
}

#[test]
fn filter_by_level_should_exclude_link_monsters() {
    let bls = search(&black_luster_soldier());
    let filter = parse_filters("l<=4").unwrap().1;
    assert!(!filter[0].matches(&bls));
}

#[test]
fn set_filter_test() {
    let lacooda = search(&lacooda());

    let astral_pack_filter = parse_filters("set:ap03").unwrap().1;
    assert!(astral_pack_filter[0].matches(&lacooda));

    let partial_filter = parse_filters("set:ap0").unwrap().1;
    assert!(!partial_filter[0].matches(&lacooda));

    let not_astral_pack_filter = parse_filters("set!=ap03").unwrap().1;
    assert!(!not_astral_pack_filter[0].matches(&lacooda));

    let astral_pack_4_filter = parse_filters("set:ap04").unwrap().1;
    assert!(!astral_pack_4_filter[0].matches(&lacooda));
}

#[test]
fn regex_filter_test() {
    let lacooda = search(&lacooda());
    let bls = search(&black_luster_soldier());
    let draw_filter = parse_filters("o:/draw \\d cards?/").unwrap().1;
    assert!(draw_filter[0].matches(&lacooda));
    assert!(!draw_filter[0].matches(&bls));
}

#[test]
fn price_filter_test() {
    let lacooda = search(&lacooda());
    let bls = search(&black_luster_soldier());
    let price_filter = parse_filters("p>50").unwrap().1;
    assert!(!price_filter[0].matches(&lacooda));
    assert!(price_filter[0].matches(&bls));
    let price_filter_2 = parse_filters("p<350").unwrap().1;
    assert!(price_filter_2[0].matches(&bls), "Should filter by the cheaper version");
}

#[test]
fn projection_lowercases_and_derives_fields() {
    let bls = search(&black_luster_soldier());
    assert_eq!(bls.id, 49202162);
    assert_eq!(bls.typeline, vec!["warrior".to_owned(), "link".to_owned(), "effect".to_owned()]);
    assert_eq!(
        bls.names,
        vec!["black luster soldier - soldier of chaos".to_owned(), "black luster soldier, the chaos warrior".to_owned()]
    );
    assert_eq!(bls.attribute, Some("earth".to_owned()));
    assert_eq!(bls.sets, vec!["op17".to_owned()]);
    assert_eq!(bls.link_arrows, Some(vec!["top".to_owned(), "bottom-left".to_owned(), "bottom-right".to_owned()]));
    assert_eq!(bls.price, Some(55));
    assert_eq!(bls.legal_copies, 3);
    assert_eq!(bls.def, None);
    assert!(bls.text.starts_with("3 monsters with different names"));
}

#[test]
fn projection_splits_descriptive_type_phrase() {
    let coffin = search(&coffin());
    assert_eq!(coffin.typeline, vec!["normal".to_owned(), "spell".to_owned()]);
    assert_eq!(coffin.sets, vec!["db1".to_owned(), "mrd".to_owned()]);
    assert_eq!(coffin.price, Some(6));
    assert_eq!(coffin.atk, None);
}

#[test]
fn projection_dedups_names() {
    let mut card = lacooda();
    card.misc_info[0].treated_as = Some("DES LACOODA".to_owned());
    card.misc_info[0].beta_name = Some("Old Lacooda".to_owned());
    let projected = search(&card);
    assert_eq!(projected.names, vec!["des lacooda".to_owned(), "old lacooda".to_owned()]);
}

#[test]
fn earliest_release_year_comes_from_catalog() {
    let catalog = ReleaseCatalog::new(&vec![
        ReleaseSet { set_name: "Gold Series".to_owned(), tcg_date: Some(ReleaseDate { year: 2008, month: 1, day: 1 }) },
        ReleaseSet { set_name: "ASTRAL PACK THREE".to_owned(), tcg_date: Some(ReleaseDate { year: 2013, month: 11, day: 1 }) },
        ReleaseSet { set_name: "Unrelated".to_owned(), tcg_date: Some(ReleaseDate { year: 1999, month: 1, day: 1 }) },
    ]);
    let projected = SearchCard::new(&lacooda(), &catalog);
    assert_eq!(projected.original_year, Some(2008));
    assert!(accepts("year=2008", &projected));
    assert!(!accepts("y<2008", &projected));
}

#[test]
fn unknown_printings_leave_year_absent() {
    let catalog = ReleaseCatalog::new(&vec![ReleaseSet { set_name: "Gold Series".to_owned(), tcg_date: None }]);
    let projected = SearchCard::new(&lacooda(), &catalog);
    assert_eq!(projected.original_year, None);
    assert!(!accepts("year!=2000", &projected));
    assert_eq!(catalog.year_of(&"gold series".to_owned()), None);
}

#[test]
fn restricted_card_copies() {
    let mut card = lacooda();
    card.banlist_info = Some(aro::data::BanlistInfo { ban_tcg: aro::data::BanlistStatus::SemiLimited });
    let projected = search(&card);
    assert_eq!(projected.legal_copies, 2);
    assert!(accepts("legal=2", &projected));
    assert!(accepts("copies<3", &projected));
}

#[test]
fn absent_fields_never_match() {
    let coffin = search(&coffin());
    for q in ["atk=0", "atk!=0", "atk<1", "atk>=0", "def!=100", "l!=4", "lr!=1", "atk=?", "def!=?"] {
        assert!(!accepts(q, &coffin), "{q} matched a spell");
    }
}

#[test]
fn question_mark_matches_only_the_sentinel() {
    let mut monster = search(&lacooda());
    monster.def = Some(-1);
    assert!(accepts("def=?", &monster));
    assert!(!accepts("def!=?", &monster));
    assert!(!accepts("def<?", &monster));
    let spell = search(&coffin());
    assert!(!accepts("def=?", &spell));
}

#[test]
fn price_scenario_220_and_350_cents() {
    let mut cheap = search(&lacooda());
    cheap.price = Some(220);
    let mut dear = search(&lacooda());
    dear.price = Some(350);
    assert!(!accepts("p>300", &cheap));
    assert!(accepts("p>300", &dear));
    assert!(accepts("p<350", &cheap));
    assert!(!accepts("p<350", &dear));
}

#[test]
fn level_alternatives_are_union() {
    let base = search(&lacooda());
    for level in 1..=8 {
        let card = SearchCard { level: Some(level), ..base.clone() };
        let union = accepts("level=4", &card) || accepts("level=5", &card) || accepts("level=6", &card);
        assert_eq!(accepts("level=4|5|6", &card), union);
    }
}

#[test]
fn name_search_uses_all_name_variants() {
    let bls = search(&black_luster_soldier());
    assert!(accepts("chaos warrior", &bls));
    assert!(accepts("name:\"soldier of chaos\"", &bls));
    assert!(accepts("name!=lacooda", &bls));
    assert!(!accepts("name!=luster", &bls));
}

#[test]
fn attribute_and_text_search() {
    let lacooda = search(&lacooda());
    assert!(accepts("a:earth", &lacooda));
    assert!(accepts("attr!=dark", &lacooda));
    assert!(accepts("o:\"flip summoned\"", &lacooda));
    assert!(!accepts("o!=flip", &lacooda));
    assert!(!accepts("o!=/FLIP/", &lacooda));
}

#[test]
fn several_clauses_all_must_hold() {
    let lacooda = search(&lacooda());
    assert!(accepts("atk>=500 def<=600 t:zombie", &lacooda));
    assert!(!accepts("atk>=500 def<600 t:zombie", &lacooda));
}
