use block_collection::api::ChainApi;
use std::sync::Arc;

struct Block;

#[test]
fn chain_api_shares_its_client() {
    let client = Arc::new(String::from("client"));
    let api: ChainApi<String, Block> = ChainApi::new(client.clone());
    assert!(Arc::ptr_eq(api.client(), &client));
    assert_eq!(Arc::strong_count(&client), 2);
    assert_eq!(api.client().as_str(), "client");
}
