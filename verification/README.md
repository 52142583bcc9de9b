# sequences

Tools for studying DNS-over-TLS traffic as sequences of message sizes and
gaps, with the logic proved correct by Verus.

## Layout

- `src/` — the verified library. Among its modules:
  - `tls_extract`, `pcap`, `tcp_buffer`: reading TLS records out of capture
    files, reassembling TCP streams and keeping the DNS records;
  - `dnstap`, `framestream`: turning decoded dnstap events into matched
    query/response pairs;
  - `load_sequence`, `sequence`, `sequence_element`, `precision_sequence`:
    building sequences and simulating padding and timing countermeasures;
  - `knn`, `confusion`, `stats`, `stats_collector`: classification, its
    quality and the statistics written out for an evaluation;
  - `crawl_index`, `surt`: choosing Common Crawl index files for domains;
  - `dns_tcp`, `edns_padding`, `constant_rate`, `adaptive_padding`,
    `payload`, `recording`: the decisions of the countermeasure proxies;
  - `minmax`, `bounded_buffer`, `duration_text`, `chrome`, `jsonl`: helpers.
- `tests/` — tests of the library on concrete values.
- `app/` — the command-line front ends: file and network I/O, argument
  handling and serialisation around the library.
