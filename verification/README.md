# network_essentials

A verified library, written in Verus, with two small text parsers and the
request handling of a minimal HTTP server.

- `src/string_parser/model_classes.rs`: `ParsedString`, the tree the parsers
  build (an optional string, map and list per node), and its model `ParsedModel`.
- `src/string_parser/json_parser.rs`: a JSON-like parser, specified by
  `spec_json`, with `parse` (for accepted texts) and `try_parse`.
- `src/string_parser/xml_parser.rs`: an XML-like parser, specified by the
  state machine `xml_run`, with `parse` (for accepted texts) and
  `try_parse`, which returns `XmlError` for refused texts.
- `src/web_api/api_register.rs`: `HttpConnectionDetails` and `ApiRegister`,
  which routes a request to a handler (specified by `route`).
- `src/web_api/http_server.rs`: `handle_connection`, which reads a request
  from the chunks of bytes a connection delivered (specified by
  `spec_request`; `try_handle_connection` also refuses unknown methods),
  and `validate_path`.
- `src/text.rs`: string helpers and `StrMap`, a map keyed by strings.
- `app/`: the server program (sockets, threads and handlers).
