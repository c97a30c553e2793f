use leaf::domain_rule::{DomainRule, DomainRuleError};

fn table_of(domains: &[&str]) -> Vec<u8> {
    let mut data = Vec::new();
    for domain in domains {
        let mut entry = [0u8; 16];
        let bytes = domain.as_bytes();
        let len = bytes.len().min(16);
        entry[..len].copy_from_slice(&bytes[bytes.len() - len..]);
        data.extend_from_slice(&entry);
    }
    data
}

fn listed_sites() -> Vec<u8> {
    table_of(&[
        "baidu.com",
        "qq.com",
        "taobao.com",
        "tmall.com",
        "jd.com",
        "163.com",
        "weibo.com",
        "zhihu.com",
        "bilibili.com",
        "alipay.com",
        "douyin.com",
        "toutiao.com",
        "xiaohongshu.com",
        "douban.com",
        "meituan.com",
        "dianping.com",
        "ctrip.com",
        "iqiyi.com",
        "youku.com",
        "sohu.com",
        "huawei.com",
        "mi.com",
        "pinduoduo.com",
        "microsoft.com",
        "apple.com",
    ])
}

#[test]
fn test_domain_rule() {
    let matcher = match DomainRule::new(&listed_sites()) {
        Ok(m) => m,
        Err(e) => {
            panic!("Failed to create DomainRule: {:?}", e);
        }
    };

    let test_cases = vec![
        ("www.baidu.com", true),
        ("www.qq.com", true),
        ("www.taobao.com", true),
        ("www.tmall.com", true),
        ("www.jd.com", true),
        ("www.163.com", true),
        ("www.sina.com.cn", true),
        ("www.weibo.com", true),
        ("www.zhihu.com", true),
        ("www.bilibili.com", true),
        ("www.alipay.com", true),
        ("www.douyin.com", true),
        ("www.toutiao.com", true),
        ("www.xiaohongshu.com", true),
        ("www.douban.com", true),
        ("www.meituan.com", true),
        ("www.dianping.com", true),
        ("www.ctrip.com", true),
        ("www.iqiyi.com", true),
        ("www.youku.com", true),
        ("www.sohu.com", true),
        ("www.360.cn", true),
        ("www.huawei.com", true),
        ("www.mi.com", true),
        ("www.pinduoduo.com", true),
        ("www.google.com", false),
        ("www.facebook.com", false),
        ("www.youtube.com", false),
        ("www.twitter.com", false),
        ("www.instagram.com", false),
        ("www.amazon.com", false),
        ("www.netflix.com", false),
        ("www.microsoft.com", true),
        ("www.apple.com", true),
        ("www.reddit.com", false),
        ("www.wikipedia.org", false),
        ("www.linkedin.com", false),
        ("www.github.com", false),
        ("www.stackoverflow.com", false),
        ("www.medium.com", false),
        ("www.spotify.com", false),
        ("www.twitch.tv", false),
        ("www.discord.com", false),
        ("www.whatsapp.com", false),
        ("www.telegram.org", false),
        ("www.tiktok.com", false),
        ("www.zoom.us", false),
        ("www.adobe.com", false),
        ("www.dropbox.com", false),
        ("www.paypal.com", false),
        ("xj8k2p5m4n.com", false),
        ("qw9v7y3h1d.net", false),
        ("rt5f2l8c6b.org", false),
        ("mn4s7w9x2v.com", false),
        ("hy6t3q8k5p.net", false),
        ("zb2n9c4m7j.org", false),
        ("wd5x8l1v6h.com", false),
        ("pg3f7t2y4r.net", false),
        ("kj9b5n8m1c.org", false),
        ("ls4h7w2v9t.com", false),
    ];

    for (domain, expected) in test_cases {
        let result = matcher.is_match(domain);
        assert_eq!(result, expected, "Domain '{}' matching failed", domain);
    }

    let country_tld_cases = vec![
        ("example.hk", false),
        ("example.tw", false),
        ("example.sg", false),
        ("example.jp", false),
        ("example.uk", false),
        ("example.us", false),
        ("example.cn", true),
        ("example.com.cn", true),
    ];

    for (domain, expected) in country_tld_cases {
        let result = matcher.is_match(domain);
        assert_eq!(result, expected, "Country TLD domain '{}' matching failed", domain);
    }
}

#[test]
fn test_get_registrable_domain() {
    let test_cases = vec![
        ("www.example.com.cn", "example.com.cn"),
        ("sub.example.com.cn", "example.com.cn"),
        ("www.example.net.cn", "example.net.cn"),
        ("www.example.org.cn", "example.org.cn"),
        ("www.example.gov.cn", "example.gov.cn"),
        ("www.dept.edu.cn", "dept.edu.cn"),
        ("www.example.com", "example.com"),
        ("sub.example.com", "example.com"),
        ("www.example.net", "example.net"),
        ("www.example.org", "example.org"),
        ("www.example.co.uk", "example.co.uk"),
        ("sub.example.co.uk", "example.co.uk"),
        ("www.example.co.jp", "example.co.jp"),
        ("example.unknown", "example.unknown"),
        ("sub.example.unknown", "sub.example.unknown"),
        ("t2.xiaohongshu.com", "xiaohongshu.com"),
        ("example", "example"),
        ("com.cn", "com.cn"),
        ("cn", "cn"),
    ];

    for (input, expected) in test_cases {
        let result = DomainRule::get_registrable_domain(input);
        assert_eq!(
            result, expected,
            "Domain '{}' should return '{}' but got '{}'",
            input, expected, result
        );
    }
}

#[test]
fn registrable_domain_of_deep_names() {
    assert_eq!(DomainRule::get_registrable_domain("a.b.c.example.com.cn"), "example.com.cn");
    assert_eq!(DomainRule::get_registrable_domain("a.b.example.xyz"), "example.xyz");
    assert_eq!(DomainRule::get_registrable_domain("www.cn"), "cn");
    assert_eq!(DomainRule::get_registrable_domain("www."), "");
    assert_eq!(DomainRule::get_registrable_domain(""), "");
}

#[test]
fn key_is_the_tail_of_the_registrable_domain() {
    let mut short = [0u8; 16];
    short[..9].copy_from_slice(b"baidu.com");
    assert_eq!(DomainRule::domain_to_u128("www.baidu.com"), u128::from_le_bytes(short));
    assert_eq!(DomainRule::domain_to_u128("tieba.baidu.com"), u128::from_le_bytes(short));
    // A name of more than sixteen bytes is keyed by its last sixteen.
    let long = "averyveryverylongname.com";
    let mut tail = [0u8; 16];
    tail.copy_from_slice(&long.as_bytes()[long.len() - 16..]);
    assert_eq!(DomainRule::domain_to_u128(long), u128::from_le_bytes(tail));
    assert_eq!(DomainRule::domain_to_u128(""), 0);
}

#[test]
fn excluded_country_suffixes() {
    assert!(DomainRule::is_excluded_country_tld("example.hk"));
    assert!(DomainRule::is_excluded_country_tld("example.co.nz"));
    assert!(DomainRule::is_excluded_country_tld("a.io"));
    assert!(!DomainRule::is_excluded_country_tld("example.cn"));
    assert!(!DomainRule::is_excluded_country_tld("example.com"));
    assert!(!DomainRule::is_excluded_country_tld("hk"));
}

#[test]
fn excluded_suffix_beats_the_table() {
    let rule = DomainRule::new(&table_of(&["example.jp"])).unwrap();
    assert_eq!(DomainRule::get_registrable_domain("example.jp"), "example.jp");
    assert!(!rule.is_match("example.jp"));
}

#[test]
fn table_is_refused_when_empty_or_ragged() {
    assert_eq!(DomainRule::new(&[]).err(), Some(DomainRuleError::Empty));
    assert_eq!(DomainRule::new(&[0u8; 17]).err(), Some(DomainRuleError::BadLength(17)));
    assert_eq!(DomainRule::new(&[1u8; 15]).err(), Some(DomainRuleError::BadLength(15)));
    assert!(DomainRule::new(&[0u8; 32]).is_ok());
}

#[test]
fn unsorted_table_is_sorted() {
    let rule = DomainRule::new(&table_of(&["zzz.com", "mmm.com", "aaa.com", "qqq.com"])).unwrap();
    for domain in ["zzz.com", "mmm.com", "aaa.com", "qqq.com"] {
        assert!(rule.is_match(domain), "{}", domain);
    }
    assert!(!rule.is_match("bbb.com"));
}
