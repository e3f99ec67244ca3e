use mev_builders::directory::builders;
use mev_builders::directory::Signing;

#[test]
fn verify_that_min_five_builders_are_present() {
    // Ensure that there are at least 5 builders defined
    assert!(builders().len() >= 5, "There should be at least 5 builders defined");
}

#[test]
fn verify_builders_sorted_by_blocks() {
    // Verify that builders are sorted by blocks in descending order
    let list = builders();
    for i in 1..list.len() {
        assert!(
            list[i - 1].blocks >= list[i].blocks,
            "Builders should be sorted by blocks in descending order. {} ({} blocks) comes before {} ({} blocks)",
            list[i - 1].name,
            list[i - 1].blocks,
            list[i].name,
            list[i].blocks
        );
    }
}

#[test]
fn test_required_fields_not_empty() {
    for builder in builders() {
        assert!(!builder.name.is_empty(), "Builder name should not be empty");
        assert!(!builder.identifier.is_empty(), "Builder identifier should not be empty");
        assert!(!builder.website.is_empty(), "Builder website should not be empty");
        assert!(!builder.searcher_rpc.is_empty(), "Builder searcher RPC should not be empty");
    }
}

#[test]
fn test_identifier_format() {
    for builder in builders() {
        assert!(
            builder.identifier.chars().all(|c| c.is_ascii_lowercase() || c.is_ascii_digit()),
            "Builder identifier should be lowercase alphanumeric: {}",
            builder.identifier
        );
    }
}

#[test]
fn test_urls_valid_format() {
    for builder in builders() {
        // Check website URL
        assert!(
            builder.website.starts_with("https://") || builder.website.starts_with("http://"),
            "Builder website should start with 'https://' or 'http://': {}",
            builder.website
        );

        // Check searcher RPC URL
        assert!(
            builder.searcher_rpc.starts_with("https://") || builder.searcher_rpc.starts_with("http://"),
            "Builder searcher_rpc should start with 'https://' or 'http://': {}",
            builder.searcher_rpc
        );

        // Check MEV share RPC URL if present
        if let Some(mev_share_rpc) = builder.mev_share_rpc {
            assert!(
                mev_share_rpc.starts_with("https://") || mev_share_rpc.starts_with("http://"),
                "Builder mev_share_rpc should start with 'https://' or 'http://': {}",
                mev_share_rpc
            );
        }
    }
}

#[test]
fn test_unique_names() {
    let mut name_set = std::collections::HashSet::new();
    for builder in builders() {
        assert!(name_set.insert(builder.name), "Duplicate builder name found: {}", builder.name);
    }
}

#[test]
fn test_unique_identifiers() {
    let mut identifier_set = std::collections::HashSet::new();
    for builder in builders() {
        assert!(identifier_set.insert(builder.identifier), "Duplicate builder identifier found: {}", builder.identifier);
    }
}

#[test]
fn test_unique_websites() {
    let mut website_set = std::collections::HashSet::new();
    for builder in builders() {
        assert!(website_set.insert(builder.website), "Duplicate builder website found: {}", builder.website);
    }
}

#[test]
fn test_unique_rpc_endpoints() {
    let mut rpc_set = std::collections::HashSet::new();
    for builder in builders() {
        assert!(rpc_set.insert(builder.searcher_rpc), "Duplicate searcher RPC found: {}", builder.searcher_rpc);
    }
}

#[test]
fn test_unique_mev_share_endpoints() {
    let mut mev_share_rpc_set = std::collections::HashSet::new();
    for builder in builders() {
        if let Some(mev_share_rpc) = builder.mev_share_rpc {
            assert!(mev_share_rpc_set.insert(mev_share_rpc), "Duplicate MEV share RPC found: {}", mev_share_rpc);
        }
    }
}

#[test]
fn test_builders() {
    let mut name_set = std::collections::HashSet::new();
    let mut identifier_set = std::collections::HashSet::new();
    let mut website_set = std::collections::HashSet::new();
    let mut rpc_set = std::collections::HashSet::new();
    let mut mev_share_rpc_set = std::collections::HashSet::new();
    for builder in builders() {
        // Ensure all required fields are populated
        assert!(!builder.name.is_empty(), "Builder name should not be empty");
        assert!(!builder.identifier.is_empty(), "Builder identifier should not be empty");
        assert!(!builder.website.is_empty(), "Builder website should not be empty");
        assert!(!builder.searcher_rpc.is_empty(), "Builder searcher RPC should not be empty");

        // Check if the identifier is a valid lowercase alphanumeric string
        assert!(
            builder.identifier.chars().all(|c| c.is_ascii_lowercase() || c.is_ascii_digit()),
            "Builder identifier should be lowercase alphanumeric: {}",
            builder.identifier
        );

        // Starts with "https://" or "http://"
        assert!(
            builder.website.starts_with("https://") || builder.website.starts_with("http://"),
            "Builder website should start with 'https://' or 'http://': {}",
            builder.website
        );

        // Check if rpc starts with "https://" or "http://"
        assert!(
            builder.searcher_rpc.starts_with("https://") || builder.searcher_rpc.starts_with("http://"),
            "Builder searcher_rpc should start with 'https://' or 'http://': {}",
            builder.searcher_rpc
        );

        // Check if mev_share_rpc is None or starts with "https://" or "http://"
        if let Some(mev_share_rpc) = builder.mev_share_rpc {
            assert!(
                mev_share_rpc.starts_with("https://") || mev_share_rpc.starts_with("http://"),
                "Builder mev_share_rpc should start with 'https://' or 'http://': {}",
                mev_share_rpc
            );
        }

        // Check that the name is unique
        assert!(name_set.insert(builder.name), "Duplicate builder name found: {}", builder.name);

        // Check that the identifier is unique
        assert!(identifier_set.insert(builder.identifier), "Duplicate builder identifier found: {}", builder.identifier);

        // Check that the website is unique
        assert!(website_set.insert(builder.website), "Duplicate builder website found: {}", builder.website);

        // Check that rpc endpoints are unique
        assert!(rpc_set.insert(builder.searcher_rpc), "Duplicate searcher RPC found: {}", builder.searcher_rpc);

        // Check that mev_share_rpc endpoints are unique
        if let Some(mev_share_rpc) = builder.mev_share_rpc {
            assert!(mev_share_rpc_set.insert(mev_share_rpc), "Duplicate MEV share RPC found: {}", mev_share_rpc);
        }
    }
}

#[test]
fn test_signing_predicates() {
    assert!(Signing::Required.is_required());
    assert!(!Signing::Required.is_optional());
    assert!(!Signing::Required.is_not_supported());
    assert!(Signing::Optional.is_optional());
    assert!(!Signing::Optional.is_required());
    assert!(Signing::NotSupported.is_not_supported());
    assert!(!Signing::NotSupported.is_optional());
}

#[test]
fn test_requires_extra_handling() {
    let list = builders();
    for b in &list {
        let expected = b.identifier == "buildernet" || b.identifier == "bloxroute";
        assert_eq!(b.requires_extra_handling(), expected, "extra handling flag for {}", b.identifier);
    }
    assert!(list.iter().any(|b| b.requires_extra_handling()));
}
