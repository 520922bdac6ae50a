use shiren_tools::price_list::{
    filtered_bracelets, filtered_grasses, filtered_pots, filtered_scrolls, filtered_staves,
    Bracelet, Grass, ItemState, Pot, Scroll, Staff,
};

fn bad_price() -> Result<Option<u16>, std::num::ParseIntError> {
    Err("x".parse::<u16>().unwrap_err())
}

#[test]
fn state_marks() {
    assert_eq!(ItemState::Normal.get_state_str(), "");
    assert_eq!(ItemState::Blessed.get_state_str(), "🔔");
    assert_eq!(ItemState::Cursed.get_state_str(), "💀");
}

#[test]
fn bracelets_by_price() {
    let list = vec![
        Bracelet { name: "a", state: ItemState::Normal, buy: 1000, sell: 400 },
        Bracelet { name: "a", state: ItemState::Cursed, buy: 870, sell: 348 },
        Bracelet { name: "b", state: ItemState::Normal, buy: 400, sell: 160 },
    ];
    assert_eq!(filtered_bracelets(&list, Ok(None)), list);
    assert_eq!(filtered_bracelets(&list, Ok(Some(400))), vec![list[0], list[2]]);
    assert_eq!(filtered_bracelets(&list, Ok(Some(870))), vec![list[1]]);
    assert_eq!(filtered_bracelets(&list, Ok(Some(1))), vec![]);
    assert_eq!(filtered_bracelets(&list, bad_price()), vec![]);
}

#[test]
fn grasses_by_price() {
    let list = vec![
        Grass { name: "g", state: ItemState::Normal, buy: 50, sell: 25 },
        Grass { name: "g", state: ItemState::Blessed, buy: 100, sell: 50 },
    ];
    assert_eq!(filtered_grasses(&list, Ok(Some(50))), list);
    assert_eq!(filtered_grasses(&list, Ok(Some(25))), vec![list[0]]);
    assert_eq!(filtered_grasses(&list, bad_price()), vec![]);
}

#[test]
fn scrolls_by_price() {
    let list = vec![Scroll { name: "s", state: ItemState::Cursed, buy: 87, sell: 34 }];
    assert_eq!(filtered_scrolls(&list, Ok(Some(34))), list);
    assert_eq!(filtered_scrolls(&list, Ok(Some(35))), vec![]);
    assert_eq!(filtered_scrolls(&Vec::new(), Ok(None)), vec![]);
}

#[test]
fn staves_and_pots_by_price() {
    let staves = vec![
        Staff { name: "t", state: ItemState::Normal, buy: 700, sell: 280, count: 0 },
        Staff { name: "t", state: ItemState::Normal, buy: 800, sell: 320, count: 1 },
    ];
    assert_eq!(filtered_staves(&staves, Ok(Some(800))), vec![staves[1]]);
    let pots = vec![
        Pot { name: "p", state: ItemState::Normal, buy: 800, sell: 320, size: 3 },
        Pot { name: "p", state: ItemState::Cursed, buy: 696, sell: 278, size: 3 },
    ];
    assert_eq!(filtered_pots(&pots, Ok(Some(278))), vec![pots[1]]);
    assert_eq!(filtered_pots(&pots, Ok(None)), pots);
}

use shiren_tools::price_list::{
    bought_first_bracelets, bought_first_grasses, bought_first_pots, bought_first_scrolls,
    bought_first_staves, bracelets, grasses, pots, price_of_text, scrolls, staves,
};
use shiren_tools::table::read_records;

#[test]
fn price_text() {
    assert_eq!(price_of_text(""), Ok(None));
    assert_eq!(price_of_text("120"), Ok(Some(120)));
    assert_eq!(price_of_text("+7"), Ok(Some(7)));
    assert_eq!(price_of_text("007"), Ok(Some(7)));
    assert_eq!(price_of_text("65535"), Ok(Some(65535)));
    assert!(price_of_text("65536").is_err());
    assert!(price_of_text("-1").is_err());
    assert!(price_of_text("+").is_err());
    assert!(price_of_text(" 1").is_err());
    assert!(price_of_text("1a").is_err());
}

#[test]
fn records_of_a_table() {
    let recs = read_records("  a,1\r\nb,2,,3\n\nc  \n");
    assert_eq!(recs, vec![vec!["a", "1"], vec!["b", "2", "", "3"], vec![""], vec!["c"]]);
    assert_eq!(read_records(" \n "), Vec::<Vec<&str>>::new());
}

#[test]
fn bracelet_table() {
    let list = bracelets("\nkaruma,1000\nmikiri,5000\n").unwrap();
    assert_eq!(
        list,
        vec![
            Bracelet { name: "karuma", state: ItemState::Normal, buy: 1000, sell: 400 },
            Bracelet { name: "karuma", state: ItemState::Cursed, buy: 870, sell: 348 },
            Bracelet { name: "mikiri", state: ItemState::Normal, buy: 5000, sell: 2000 },
            Bracelet { name: "mikiri", state: ItemState::Cursed, buy: 4350, sell: 1740 },
        ]
    );
    assert_eq!(bracelets("karuma"), None);
    assert_eq!(bracelets("karuma,x"), None);
    assert_eq!(bracelets(""), Some(vec![]));
}

#[test]
fn grass_table() {
    let list = grasses("yakusou,50,25").unwrap();
    assert_eq!(
        list,
        vec![
            Grass { name: "yakusou", state: ItemState::Normal, buy: 50, sell: 25 },
            Grass { name: "yakusou", state: ItemState::Blessed, buy: 100, sell: 50 },
            Grass { name: "yakusou", state: ItemState::Cursed, buy: 43, sell: 21 },
        ]
    );
    assert_eq!(grasses("a,40000,1"), None);
    assert_eq!(grasses("a,50"), None);
}

#[test]
fn scroll_table() {
    let list = scrolls("shikibetsu,100").unwrap();
    assert_eq!(
        list,
        vec![
            Scroll { name: "shikibetsu", state: ItemState::Normal, buy: 100, sell: 40 },
            Scroll { name: "shikibetsu", state: ItemState::Blessed, buy: 200, sell: 80 },
            Scroll { name: "shikibetsu", state: ItemState::Cursed, buy: 87, sell: 34 },
        ]
    );
    assert_eq!(scrolls("a,40000"), None);
}

#[test]
fn staff_table() {
    let list = staves("huki,700,4,1").unwrap();
    assert_eq!(
        list,
        vec![
            Staff { name: "huki", state: ItemState::Normal, buy: 700, sell: 280, count: 0 },
            Staff { name: "huki", state: ItemState::Cursed, buy: 609, sell: 243, count: 0 },
            Staff { name: "huki", state: ItemState::Normal, buy: 800, sell: 320, count: 1 },
            Staff { name: "huki", state: ItemState::Cursed, buy: 696, sell: 278, count: 1 },
        ]
    );
    assert_eq!(staves("huki,700,4"), None);
    assert_eq!(staves("huki,65000,4,6"), None);
}

#[test]
fn pot_table() {
    let list = pots("hozon,800,3,0").unwrap();
    assert_eq!(
        list,
        vec![
            Pot { name: "hozon", state: ItemState::Normal, buy: 800, sell: 320, size: 0 },
            Pot { name: "hozon", state: ItemState::Cursed, buy: 696, sell: 278, size: 0 },
        ]
    );
    assert_eq!(pots("hozon,800,3,3").unwrap().len(), 8);
}

#[test]
fn matching_buying_price_comes_first() {
    let list = bracelets("a,1000\nb,400\nc,2500").unwrap();
    let found = filtered_bracelets(&list, Ok(Some(1000)));
    let ordered = bought_first_bracelets(&found, 1000);
    assert_eq!(ordered[0].name, "a");
    assert_eq!(ordered[0].buy, 1000);
    assert_eq!(ordered[1].name, "c");
    assert_eq!(ordered[1].sell, 1000);
    let herbs = grasses("a,100,50\nb,50,25").unwrap();
    let ordered = bought_first_grasses(&filtered_grasses(&herbs, Ok(Some(50))), 50);
    assert_eq!((ordered[0].name, ordered[0].buy), ("b", 50));
    assert_eq!((ordered[1].name, ordered[1].sell), ("a", 50));
    let s = scrolls("a,250\nb,100").unwrap();
    assert_eq!(bought_first_scrolls(&filtered_scrolls(&s, Ok(Some(100))), 100)[0].name, "b");
    let t = staves("t,700,4,1").unwrap();
    assert_eq!(bought_first_staves(&t, 800)[0].count, 1);
    let p = pots("p,800,3,1").unwrap();
    assert_eq!(bought_first_pots(&p, 900)[0].size, 1);
}
