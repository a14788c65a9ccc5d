use yaiko::robots::{RobotsError, RobotsTxt};

#[test]
fn renders_directives_deterministically() {
    let r = RobotsTxt::new("*")
        .unwrap()
        .disallow("/admin")
        .unwrap()
        .allow("/public")
        .unwrap()
        .sitemap("https://example.com/sitemap.xml")
        .unwrap();
    assert_eq!(
        r.render(),
        "User-agent: *\nDisallow: /admin\nAllow: /public\nSitemap: https://example.com/sitemap.xml\n"
    )
}

#[test]
fn rejects_invalid_values() {
    assert_eq!(RobotsTxt::new("bad agent"), Err(RobotsError::InvalidValue));
    assert_eq!(RobotsTxt::new("*").unwrap().disallow("admin"), Err(RobotsError::InvalidValue));
    assert_eq!(RobotsTxt::new("*").unwrap().sitemap("http://example.com/x"), Err(RobotsError::InvalidValue))
}

#[test]
fn renders_rules_in_the_order_added() {
    let r = RobotsTxt::new("bot").unwrap().disallow("/a").unwrap().disallow("/b").unwrap();
    assert_eq!(r.render(), "User-agent: bot\nDisallow: /a\nDisallow: /b\n");
    assert_eq!(RobotsTxt::new("").unwrap_err(), RobotsError::InvalidValue);
    assert_eq!(RobotsTxt::new("bot").unwrap().allow("/x y"), Err(RobotsError::InvalidValue));
}
